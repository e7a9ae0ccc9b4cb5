//! A map from header names to header values.

use vstd::prelude::*;

verus! {

/// `Content-Length`: the length of the body in bytes.
pub open spec fn content_length_name() -> Seq<char> {
    seq!['C', 'o', 'n', 't', 'e', 'n', 't', '-', 'L', 'e', 'n', 'g', 't', 'h']
}

/// `Content-Type`: the media type of the body.
pub open spec fn content_type_name() -> Seq<char> {
    seq!['C', 'o', 'n', 't', 'e', 'n', 't', '-', 'T', 'y', 'p', 'e']
}

/// `Content-Encoding`: the encoding that the body is sent with.
pub open spec fn content_encoding_name() -> Seq<char> {
    seq!['C', 'o', 'n', 't', 'e', 'n', 't', '-', 'E', 'n', 'c', 'o', 'd', 'i', 'n', 'g']
}

/// `Accept-Encoding`: the encodings that a client accepts.
pub open spec fn accept_encoding_name() -> Seq<char> {
    seq!['A', 'c', 'c', 'e', 'p', 't', '-', 'E', 'n', 'c', 'o', 'd', 'i', 'n', 'g']
}

/// `Connection`: whether the connection stays open after the exchange.
pub open spec fn connection_name() -> Seq<char> {
    seq!['C', 'o', 'n', 'n', 'e', 'c', 't', 'i', 'o', 'n']
}

/// `"\r\n"`, the end of a line.
pub open spec fn crlf() -> Seq<char> {
    seq!['\r', '\n']
}

/// The header lines of a response: `name: value` and `"\r\n"` for each
/// field, in order.
pub open spec fn header_block(es: Seq<(Seq<char>, Seq<char>)>) -> Seq<char>
    decreases es.len(),
{
    if es.len() == 0 {
        Seq::empty()
    } else {
        header_block(es.drop_last()) + es.last().0 + seq![':', ' '] + es.last().1 + crlf()
    }
}

/// `close`, the `Connection` value that asks to close the connection.
pub open spec fn close_token() -> Seq<char> {
    seq!['c', 'l', 'o', 's', 'e']
}

/// True when the request's `Connection` header is `close`.
pub open spec fn close_requested(h: Map<Seq<char>, Seq<char>>) -> bool {
    h.contains_key(connection_name()) && h[connection_name()] == close_token()
}

/// The map that results from inserting the pairs of `s` in order, later pairs
/// replacing earlier ones with the same name.
pub open spec fn entries_map(s: Seq<(Seq<char>, Seq<char>)>) -> Map<Seq<char>, Seq<char>>
    decreases s.len(),
{
    if s.len() == 0 {
        Map::empty()
    } else {
        entries_map(s.drop_last()).insert(s.last().0, s.last().1)
    }
}

/// No two pairs of `s` share a name.
pub open spec fn names_distinct(s: Seq<(Seq<char>, Seq<char>)>) -> bool {
    forall|i: int, j: int| 0 <= i < j < s.len() ==> #[trigger] s[i].0 != #[trigger] s[j].0
}

/// The position of the first pair of `s` at or after `i` named `k`.
pub open spec fn name_index_from(s: Seq<(Seq<char>, Seq<char>)>, k: Seq<char>, i: int) -> Option<int>
    decreases s.len() - i,
{
    if i < 0 || i >= s.len() {
        None
    } else if s[i].0 == k {
        Some(i)
    } else {
        name_index_from(s, k, i + 1)
    }
}

/// `s` after setting `k` to `v`: the pair named `k` gets the value in place,
/// or, when there is none, the pair is added at the end.
pub open spec fn entries_insert(s: Seq<(Seq<char>, Seq<char>)>, k: Seq<char>, v: Seq<char>) -> Seq<
    (Seq<char>, Seq<char>),
> {
    match name_index_from(s, k, 0) {
        Some(i) => s.update(i, (k, v)),
        None => s.push((k, v)),
    }
}

proof fn lemma_name_index(s: Seq<(Seq<char>, Seq<char>)>, k: Seq<char>, i: int)
    requires
        0 <= i,
    ensures
        name_index_from(s, k, i) matches Some(j) ==> i <= j < s.len() && s[j].0 == k && forall|l: int|
            i <= l < j ==> s[l].0 != k,
        name_index_from(s, k, i) is None ==> forall|l: int| i <= l < s.len() ==> s[l].0 != k,
    decreases s.len() - i,
{
    if i < s.len() && s[i].0 != k {
        lemma_name_index(s, k, i + 1);
    }
}

/// A name is in the map of `s` exactly when some pair of `s` carries it; with
/// distinct names, its value is that pair's value.
pub proof fn lemma_entries_map(s: Seq<(Seq<char>, Seq<char>)>, k: Seq<char>)
    ensures
        entries_map(s).dom().contains(k) <==> exists|i: int| 0 <= i < s.len() && #[trigger] s[i].0 == k,
        names_distinct(s) ==> forall|i: int|
            0 <= i < s.len() && #[trigger] s[i].0 == k ==> entries_map(s)[k] == s[i].1,
    decreases s.len(),
{
    if s.len() > 0 {
        let t = s.drop_last();
        lemma_entries_map(t, k);
        if entries_map(t).dom().contains(k) {
            let i = choose|i: int| 0 <= i < t.len() && t[i].0 == k;
            assert(s[i].0 == k);
        }
        if exists|i: int| 0 <= i < s.len() && #[trigger] s[i].0 == k {
            let i = choose|i: int| 0 <= i < s.len() && #[trigger] s[i].0 == k;
            if i < s.len() - 1 {
                assert(t[i].0 == k);
            }
        }
        if names_distinct(s) {
            assert(names_distinct(t)) by {
                assert forall|i: int, j: int| 0 <= i < j < t.len() implies #[trigger] t[i].0
                    != #[trigger] t[j].0 by {
                    assert(s[i].0 != s[j].0);
                }
            }
            assert forall|i: int| 0 <= i < s.len() && #[trigger] s[i].0 == k implies entries_map(
                s,
            )[k] == s[i].1 by {
                if i < s.len() - 1 {
                    assert(s[i].0 != s[s.len() - 1].0);
                    assert(t[i].0 == k);
                }
            }
        }
    }
}

/// The (name, value) views of the pairs of `v`.
pub open spec fn entries_view(v: Seq<(String, String)>) -> Seq<(Seq<char>, Seq<char>)> {
    v.map_values(|e: (String, String)| (e.0@, e.1@))
}

/// Law: setting a name in fields with distinct names sets it in their map
/// (a later lookup of the name gives the new value, other names keep
/// theirs), and keeps the names distinct.
pub proof fn lemma_entries_insert(s: Seq<(Seq<char>, Seq<char>)>, k: Seq<char>, v: Seq<char>)
    requires
        names_distinct(s),
    ensures
        names_distinct(entries_insert(s, k, v)),
        entries_map(entries_insert(s, k, v)) == entries_map(s).insert(k, v),
{
    lemma_name_index(s, k, 0);
    let new_s = entries_insert(s, k, v);
    match name_index_from(s, k, 0) {
        Some(i) => {
            assert(new_s == s.update(i, (k, v)));
            assert(names_distinct(new_s)) by {
                assert forall|a: int, b: int| 0 <= a < b < new_s.len() implies #[trigger] new_s[a].0
                    != #[trigger] new_s[b].0 by {
                    assert(s[a].0 != s[b].0);
                }
            }
            assert forall|key: Seq<char>| #[trigger]
                entries_map(new_s).dom().contains(key) <==> entries_map(s).insert(
                    k,
                    v,
                ).dom().contains(key) by {
                lemma_entries_map(new_s, key);
                lemma_entries_map(s, key);
                if key != k {
                    if exists|j: int| 0 <= j < new_s.len() && #[trigger] new_s[j].0 == key {
                        let j = choose|j: int| 0 <= j < new_s.len() && #[trigger] new_s[j].0 == key;
                        assert(s[j].0 == key);
                    }
                    if exists|j: int| 0 <= j < s.len() && #[trigger] s[j].0 == key {
                        let j = choose|j: int| 0 <= j < s.len() && #[trigger] s[j].0 == key;
                        assert(new_s[j].0 == key);
                    }
                } else {
                    assert(new_s[i].0 == key);
                }
            }
            assert forall|key: Seq<char>| #[trigger]
                entries_map(new_s).dom().contains(key) implies entries_map(new_s)[key]
                == entries_map(s).insert(k, v)[key] by {
                lemma_entries_map(new_s, key);
                lemma_entries_map(s, key);
                let j = choose|j: int| 0 <= j < new_s.len() && #[trigger] new_s[j].0 == key;
                if j != i {
                    assert(s[j].0 == key);
                }
            }
            assert(entries_map(new_s) =~= entries_map(s).insert(k, v));
        },
        None => {
            assert(new_s == s.push((k, v)));
            assert(new_s.drop_last() =~= s);
            assert(names_distinct(new_s)) by {
                assert forall|a: int, b: int| 0 <= a < b < new_s.len() implies #[trigger] new_s[a].0
                    != #[trigger] new_s[b].0 by {
                    if b < s.len() {
                        assert(s[a].0 != s[b].0);
                    } else {
                        assert(s[a].0 != k);
                    }
                }
            }
        },
    }
}

/// Header fields: names with their values. Inserting a name that is present
/// replaces its value in place; the fields otherwise keep the order in which
/// they were first inserted.
#[derive(Debug)]
pub struct Headers {
    entries: Vec<(String, String)>,
}

impl Headers {
    #[verifier::type_invariant]
    spec fn distinct(self) -> bool {
        names_distinct(self.entries())
    }

    /// The fields in order, as (name, value) pairs.
    pub closed spec fn entries(self) -> Seq<(Seq<char>, Seq<char>)> {
        entries_view(self.entries@)
    }

    /// An empty map.
    pub fn new() -> (h: Headers)
        ensures
            h@ == Map::<Seq<char>, Seq<char>>::empty(),
            h.entries() == Seq::<(Seq<char>, Seq<char>)>::empty(),
            names_distinct(h.entries()),
    {
        let h = Headers { entries: Vec::new() };
        assert(h.entries() =~= Seq::<(Seq<char>, Seq<char>)>::empty());
        h
    }

    /// The number of fields.
    pub fn len(&self) -> (n: usize)
        ensures
            n == self.entries().len(),
            n == self@.len(),
    {
        proof {
            use_type_invariant(self);
            self.lemma_len();
        }
        self.entries.len()
    }

    proof fn lemma_len(&self)
        requires
            names_distinct(self.entries()),
        ensures
            self@.len() == self.entries().len(),
    {
        lemma_map_len(self.entries());
    }

    /// The field at position `i`, as (name, value).
    pub fn entry(&self, i: usize) -> (r: (&String, &String))
        requires
            i < self.entries().len(),
        ensures
            (r.0@, r.1@) == self.entries()[i as int],
    {
        let e = &self.entries[i];
        (&e.0, &e.1)
    }

    /// The value of the field named `name`.
    pub fn get(&self, name: &String) -> (r: Option<&String>)
        ensures
            r matches Some(v) ==> self@.contains_key(name@) && self@[name@] == v@,
            r is None ==> !self@.contains_key(name@),
    {
        proof {
            use_type_invariant(self);
            lemma_entries_map(self.entries(), name@);
        }
        let mut i: usize = 0;
        while i < self.entries.len()
            invariant
                i <= self.entries@.len(),
                forall|j: int| 0 <= j < i ==> self.entries()[j].0 != name@,
                names_distinct(self.entries()),
                entries_map(self.entries()).dom().contains(name@) <==> exists|j: int|
                    0 <= j < self.entries().len() && #[trigger] self.entries()[j].0 == name@,
                forall|j: int|
                    0 <= j < self.entries().len() && #[trigger] self.entries()[j].0 == name@
                        ==> entries_map(self.entries())[name@] == self.entries()[j].1,
            decreases self.entries@.len() - i,
        {
            if self.entries[i].0 == *name {
                assert(self.entries()[i as int].0 == name@);
                return Some(&self.entries[i].1);
            }
            i = i + 1;
        }
        None
    }

    /// Sets the value of the field `name` to `value`, in place when the
    /// field is present, else as a new last field.
    pub fn insert(&mut self, name: String, value: String)
        ensures
            final(self)@ == old(self)@.insert(name@, value@),
            final(self).entries() == entries_insert(old(self).entries(), name@, value@),
            names_distinct(final(self).entries()),
    {
        proof {
            use_type_invariant(&*self);
        }
        let ghost k = name@;
        let ghost old_s = self.entries();
        let mut entries: Vec<(String, String)> = Vec::new();
        std::mem::swap(&mut entries, &mut self.entries);
        assert(entries_view(entries@) == old_s);
        let mut i: usize = 0;
        while i < entries.len()
            invariant
                i <= entries@.len(),
                entries_view(entries@) == old_s,
                forall|j: int| 0 <= j < i ==> old_s[j].0 != k,
                k == name@,
            ensures
                i <= entries@.len(),
                entries_view(entries@) == old_s,
                forall|j: int| 0 <= j < i ==> old_s[j].0 != k,
                i < entries@.len() ==> old_s[i as int].0 == k,
            decreases entries@.len() - i,
        {
            if entries[i].0 == name {
                assert(old_s[i as int].0 == entries@[i as int].0@);
                break;
            }
            i = i + 1;
        }
        proof {
            lemma_name_index(old_s, k, 0);
            if i < entries@.len() {
                assert(name_index_from(old_s, k, 0) == Some(i as int));
            } else {
                assert(name_index_from(old_s, k, 0) is None);
            }
        }
        let ghost vv = value@;
        if i < entries.len() {
            entries.set(i, (name, value));
            assert(entries_view(entries@) =~= old_s.update(i as int, (k, vv)));
        } else {
            entries.push((name, value));
            assert(entries_view(entries@) =~= old_s.push((k, vv)));
        }
        proof {
            lemma_entries_insert(old_s, k, vv);
        }
        self.entries = entries;
    }
}

impl Clone for Headers {
    /// A copy with the same fields in the same order.
    fn clone(&self) -> (r: Self)
        ensures
            r.entries() == self.entries(),
            r@ == self@,
            names_distinct(r.entries()),
    {
        proof {
            use_type_invariant(self);
        }
        let mut entries: Vec<(String, String)> = Vec::new();
        let mut i: usize = 0;
        while i < self.entries.len()
            invariant
                i <= self.entries@.len(),
                entries@.len() == i,
                entries_view(entries@) == self.entries().take(
                    i as int,
                ),
            decreases self.entries@.len() - i,
        {
            let e = &self.entries[i];
            let a = e.0.clone();
            let b = e.1.clone();
            let ghost before = entries@;
            assert((a@, b@) == self.entries()[i as int]);
            entries.push((a, b));
            assert(entries@ == before.push((a, b)));
            assert(entries_view(entries@).len() == i + 1);
            assert(self.entries().len() == self.entries@.len());
            assert(entries_view(entries@)[i as int] == (a@, b@));
            assert forall|j: int| 0 <= j < i + 1 implies #[trigger] entries_view(entries@)[j]
                == self.entries().take(i + 1)[j] by {
                if j < i {
                    assert(entries_view(before)[j] == (before[j].0@, before[j].1@));
                    assert(entries_view(entries@)[j] == (entries@[j].0@, entries@[j].1@));
                    assert(entries_view(before)[j] == self.entries().take(i as int)[j]);
                }
            }
            assert(entries_view(entries@) =~= self.entries().take(
                i + 1,
            ));
            i = i + 1;
        }
        assert(self.entries().take(i as int) =~= self.entries());
        Headers { entries }
    }
}

impl View for Headers {
    type V = Map<Seq<char>, Seq<char>>;

    open spec fn view(&self) -> Map<Seq<char>, Seq<char>> {
        entries_map(self.entries())
    }
}

proof fn lemma_map_len(s: Seq<(Seq<char>, Seq<char>)>)
    requires
        names_distinct(s),
    ensures
        entries_map(s).len() == s.len(),
        entries_map(s).dom().finite(),
    decreases s.len(),
{
    if s.len() > 0 {
        let t = s.drop_last();
        assert(names_distinct(t)) by {
            assert forall|i: int, j: int| 0 <= i < j < t.len() implies #[trigger] t[i].0
                != #[trigger] t[j].0 by {
                assert(s[i].0 != s[j].0);
            }
        }
        lemma_map_len(t);
        lemma_entries_map(t, s.last().0);
        if entries_map(t).dom().contains(s.last().0) {
            let i = choose|i: int| 0 <= i < t.len() && #[trigger] t[i].0 == s.last().0;
            assert(s[i].0 != s[s.len() - 1].0);
        }
    }
}


/// A `String` holding `Content-Length`.
pub fn content_length_key() -> (s: String)
    ensures
        s@ == content_length_name(),
{
    let s = String::from_str("Content-Length");
    proof {
        reveal_strlit("Content-Length");
    }
    assert(s@ =~= content_length_name());
    s
}

/// A `String` holding `Content-Type`.
pub fn content_type_key() -> (s: String)
    ensures
        s@ == content_type_name(),
{
    let s = String::from_str("Content-Type");
    proof {
        reveal_strlit("Content-Type");
    }
    assert(s@ =~= content_type_name());
    s
}

/// A `String` holding `Content-Encoding`.
pub fn content_encoding_key() -> (s: String)
    ensures
        s@ == content_encoding_name(),
{
    let s = String::from_str("Content-Encoding");
    proof {
        reveal_strlit("Content-Encoding");
    }
    assert(s@ =~= content_encoding_name());
    s
}

/// A `String` holding `Accept-Encoding`.
pub fn accept_encoding_key() -> (s: String)
    ensures
        s@ == accept_encoding_name(),
{
    let s = String::from_str("Accept-Encoding");
    proof {
        reveal_strlit("Accept-Encoding");
    }
    assert(s@ =~= accept_encoding_name());
    s
}

/// A `String` holding `Connection`.
pub fn connection_key() -> (s: String)
    ensures
        s@ == connection_name(),
{
    let s = String::from_str("Connection");
    proof {
        reveal_strlit("Connection");
    }
    assert(s@ =~= connection_name());
    s
}

/// A `String` holding `close`.
pub fn close_value() -> (s: String)
    ensures
        s@ == close_token(),
{
    let s = String::from_str("close");
    proof {
        reveal_strlit("close");
    }
    assert(s@ =~= close_token());
    s
}

/// Whether the headers `h` ask to close the connection (see
/// `close_requested`).
pub fn asks_close(h: &Headers) -> (r: bool)
    ensures
        r == close_requested(h@),
{
    let name = connection_key();
    match h.get(&name) {
        Some(val) => {
            let close = close_value();
            *val == close
        },
        None => false,
    }
}
} // verus!
