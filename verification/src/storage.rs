//! A backend-agnostic key-value storage interface, and an in-memory backend that
//! keeps its entries sorted by key.
use vstd::prelude::*;
use vstd::slice::slice_to_vec;

verus! {

/// A key-value store of byte strings.
pub trait Storage: Send + Sync {
    /// The map that the store holds. A store verified here defines it. A store
    /// implemented in plain Rust (which must compile without this function)
    /// inherits this default, the empty map, which says nothing of what it holds:
    /// the laws over `stored()` then describe no real backend.
    closed spec fn stored(&self) -> Map<Seq<u8>, Seq<u8>> {
        Map::empty()
    }

    /// Sets the value of `key`.
    fn put(&mut self, key: &[u8], value: &[u8]) -> (r: crate::Result<()>)
        ensures
            r is Ok ==> final(self).stored() == old(self).stored().insert(key@, value@),
    ;

    /// The value of `key`, if any.
    fn get(&self, key: &[u8]) -> (r: crate::Result<Option<Vec<u8>>>)
        ensures
            r is Ok ==> (r.unwrap() is Some <==> self.stored().contains_key(key@)),
            r is Ok && r.unwrap() is Some ==> r.unwrap().unwrap()@ == self.stored()[key@],
    ;

    /// Removes `key` and its value.
    fn delete(&mut self, key: &[u8]) -> (r: crate::Result<()>)
        ensures
            r is Ok ==> final(self).stored() == old(self).stored().remove(key@),
    ;

    /// The entries whose key starts with `prefix`, in increasing order of key.
    fn scan_prefix(&self, prefix: &[u8]) -> (r: crate::Result<Vec<(Vec<u8>, Vec<u8>)>>)
        ensures
            r is Ok ==> sorted_keys(entries_of(r.unwrap()@)),
            r is Ok ==> entries_map(entries_of(r.unwrap()@)) == self.stored().restrict(
                self.stored().dom().filter(|k: Seq<u8>| is_prefix(prefix@, k)),
            ),
    ;
}

/// Lexicographic order on byte strings, comparing from position `i` on.
pub open spec fn lex_lt_from(a: Seq<u8>, b: Seq<u8>, i: int) -> bool
    decreases a.len() - i,
{
    if i < 0 || i >= a.len() {
        i == a.len() && i < b.len()
    } else if i >= b.len() {
        false
    } else if a[i] < b[i] {
        true
    } else if a[i] > b[i] {
        false
    } else {
        lex_lt_from(a, b, i + 1)
    }
}

/// `a` comes before `b` in lexicographic byte order.
pub open spec fn lex_lt(a: Seq<u8>, b: Seq<u8>) -> bool {
    lex_lt_from(a, b, 0)
}

/// `p` is a prefix of `k`.
pub open spec fn is_prefix(p: Seq<u8>, k: Seq<u8>) -> bool {
    p.len() <= k.len() && k.subrange(0, p.len() as int) == p
}

/// The keys of the entries strictly increase.
pub open spec fn sorted_keys(s: Seq<(Seq<u8>, Seq<u8>)>) -> bool {
    forall|i: int, j: int| 0 <= i < j < s.len() ==> lex_lt(#[trigger] s[i].0, #[trigger] s[j].0)
}

/// Some entry has key `k`.
pub open spec fn has_key(s: Seq<(Seq<u8>, Seq<u8>)>, k: Seq<u8>) -> bool {
    exists|i: int| 0 <= i < s.len() && s[i].0 == k
}

/// The position of the entry with key `k`.
pub open spec fn key_index(s: Seq<(Seq<u8>, Seq<u8>)>, k: Seq<u8>) -> int {
    choose|i: int| 0 <= i < s.len() && s[i].0 == k
}

/// The map that the entries represent.
pub open spec fn entries_map(s: Seq<(Seq<u8>, Seq<u8>)>) -> Map<Seq<u8>, Seq<u8>> {
    Map::new(|k: Seq<u8>| has_key(s, k), |k: Seq<u8>| s[key_index(s, k)].1)
}

/// The entries whose key starts with `p`, in their order.
pub open spec fn entries_with_prefix(s: Seq<(Seq<u8>, Seq<u8>)>, p: Seq<u8>) -> Seq<
    (Seq<u8>, Seq<u8>),
> {
    s.filter(|e: (Seq<u8>, Seq<u8>)| is_prefix(p, e.0))
}

pub proof fn lemma_lex_irreflexive(a: Seq<u8>, i: int)
    requires
        0 <= i <= a.len(),
    ensures
        !lex_lt_from(a, a, i),
    decreases a.len() - i,
{
    if i < a.len() {
        lemma_lex_irreflexive(a, i + 1);
    }
}

pub proof fn lemma_lex_transitive(a: Seq<u8>, b: Seq<u8>, c: Seq<u8>, i: int)
    requires
        0 <= i,
        lex_lt_from(a, b, i),
        lex_lt_from(b, c, i),
    ensures
        lex_lt_from(a, c, i),
    decreases a.len() - i,
{
    if i < a.len() && i < b.len() && i < c.len() {
        if a[i] == b[i] && b[i] == c[i] {
            lemma_lex_transitive(a, b, c, i + 1);
        }
    }
}

/// Two byte strings that agree before `i` are equal, or one comes before the other.
pub proof fn lemma_lex_total(a: Seq<u8>, b: Seq<u8>, i: int)
    requires
        0 <= i <= a.len(),
        i <= b.len(),
        forall|j: int| 0 <= j < i ==> a[j] == b[j],
    ensures
        lex_lt_from(a, b, i) || lex_lt_from(b, a, i) || a == b,
    decreases a.len() - i,
{
    if i == a.len() && i == b.len() {
        assert(a =~= b);
    } else if i < a.len() && i < b.len() && a[i] == b[i] {
        lemma_lex_total(a, b, i + 1);
    }
}

/// Whether `a` comes before `b` in lexicographic byte order.
pub fn lex_less(a: &[u8], b: &[u8]) -> (r: bool)
    ensures
        r == lex_lt(a@, b@),
{
    let mut i: usize = 0;
    while i < a.len() && i < b.len()
        invariant
            i <= a@.len(),
            i <= b@.len(),
            lex_lt_from(a@, b@, 0) == lex_lt_from(a@, b@, i as int),
        decreases a.len() - i,
    {
        if a[i] < b[i] {
            return true;
        }
        if a[i] > b[i] {
            return false;
        }
        i = i + 1;
    }
    i == a.len() && i < b.len()
}

/// Whether two byte strings are equal.
pub fn bytes_equal(a: &[u8], b: &[u8]) -> (r: bool)
    ensures
        r == (a@ == b@),
{
    if a.len() != b.len() {
        return false;
    }
    let mut i: usize = 0;
    while i < a.len()
        invariant
            i <= a@.len(),
            a@.len() == b@.len(),
            forall|j: int| 0 <= j < i ==> a@[j] == b@[j],
        decreases a.len() - i,
    {
        if a[i] != b[i] {
            return false;
        }
        i = i + 1;
    }
    assert(a@ =~= b@);
    true
}

/// Whether `p` is a prefix of `k`.
pub fn starts_with(k: &[u8], p: &[u8]) -> (r: bool)
    ensures
        r == is_prefix(p@, k@),
{
    if p.len() > k.len() {
        return false;
    }
    let mut i: usize = 0;
    while i < p.len()
        invariant
            i <= p@.len() <= k@.len(),
            forall|j: int| 0 <= j < i ==> k@[j] == p@[j],
        decreases p.len() - i,
    {
        if k[i] != p[i] {
            assert(k@.subrange(0, p@.len() as int)[i as int] != p@[i as int]);
            return false;
        }
        i = i + 1;
    }
    assert(k@.subrange(0, p@.len() as int) =~= p@);
    true
}

/// In-memory storage whose entries are kept sorted by key, so that a prefix scan
/// returns its entries in key order.
pub struct InMemoryStorage {
    data: Vec<(Vec<u8>, Vec<u8>)>,
}

impl View for InMemoryStorage {
    type V = Seq<(Seq<u8>, Seq<u8>)>;

    /// The entries, in increasing order of key.
    closed spec fn view(&self) -> Seq<(Seq<u8>, Seq<u8>)> {
        entries_of(self.data@)
    }
}

proof fn lemma_sorted_distinct(s: Seq<(Seq<u8>, Seq<u8>)>, i: int, j: int)
    requires
        sorted_keys(s),
        0 <= i < s.len(),
        0 <= j < s.len(),
        i != j,
    ensures
        s[i].0 != s[j].0,
{
    if i < j {
        assert(lex_lt(s[i].0, s[j].0));
    } else {
        assert(lex_lt(s[j].0, s[i].0));
    }
    lemma_lex_irreflexive(s[i].0, 0);
}

proof fn lemma_key_index(s: Seq<(Seq<u8>, Seq<u8>)>, i: int)
    requires
        sorted_keys(s),
        0 <= i < s.len(),
    ensures
        has_key(s, s[i].0),
        key_index(s, s[i].0) == i,
        entries_map(s)[s[i].0] == s[i].1,
{
    let k = s[i].0;
    assert(has_key(s, k));
    let j = key_index(s, k);
    if j != i {
        lemma_sorted_distinct(s, i, j);
    }
}

/// The entries that a vector of owned byte strings holds.
pub open spec fn entries_of(v: Seq<(Vec<u8>, Vec<u8>)>) -> Seq<(Seq<u8>, Seq<u8>)> {
    Seq::new(v.len(), |i: int| (v[i].0@, v[i].1@))
}
/// The position of the first entry whose key is not below `key`.
fn lower_bound(data: &Vec<(Vec<u8>, Vec<u8>)>, key: &[u8]) -> (r: usize)
    requires
        sorted_keys(entries_of(data@)),
    ensures
        r <= entries_of(data@).len(),
        forall|i: int| 0 <= i < r ==> lex_lt(#[trigger] entries_of(data@)[i].0, key@),
        forall|i: int| r <= i < entries_of(data@).len() ==> !lex_lt(#[trigger] entries_of(data@)[i].0, key@),
{
    let mut i: usize = 0;
    while i < data.len()
        invariant
            i <= entries_of(data@).len(),
            entries_of(data@).len() == data@.len(),
            sorted_keys(entries_of(data@)),
            forall|j: int| 0 <= j < i ==> lex_lt(#[trigger] entries_of(data@)[j].0, key@),
        decreases data.len() - i,
    {
        if !lex_less(data[i].0.as_slice(), key) {
            assert(entries_of(data@)[i as int].0 == data@[i as int].0@);
            assert forall|j: int| i <= j < entries_of(data@).len() implies !lex_lt(
                #[trigger] entries_of(data@)[j].0,
                key@,
            ) by {
                if j > i && lex_lt(entries_of(data@)[j].0, key@) {
                    assert(lex_lt(entries_of(data@)[i as int].0, entries_of(data@)[j].0));
                    lemma_lex_transitive(entries_of(data@)[i as int].0, entries_of(data@)[j].0, key@, 0);
                }
            }
            return i;
        }
        i = i + 1;
    }
    i
}

/// Sets the value of `key`.
fn put_in(data: &mut Vec<(Vec<u8>, Vec<u8>)>, key: &[u8], value: &[u8])
    requires
        sorted_keys(entries_of(old(data)@)),
    ensures
        sorted_keys(entries_of(final(data)@)),
        entries_map(entries_of(final(data)@)) == entries_map(entries_of(old(data)@)).insert(key@, value@),
{
    let ghost old_view = entries_of(data@);
    let pos = lower_bound(data, key);
    let ghost k = key@;
    if pos < data.len() && bytes_equal(data[pos].0.as_slice(), key) {
        data.set(pos, (slice_to_vec(key), slice_to_vec(value)));
        proof {
            let s = entries_of(data@);
            assert(s =~= old_view.update(pos as int, (k, value@)));
            assert(sorted_keys(s)) by {
                assert forall|i: int, j: int| 0 <= i < j < s.len() implies lex_lt(
                    #[trigger] s[i].0,
                    #[trigger] s[j].0,
                ) by {
                    assert(s[i].0 == old_view[i].0);
                    assert(s[j].0 == old_view[j].0);
                }
            }
            assert(entries_map(entries_of(data@)) =~= entries_map(old_view).insert(k, value@)) by {
                assert forall|kk: Seq<u8>| #[trigger] has_key(s, kk) == (has_key(old_view, kk)
                    || kk == k) by {
                    if has_key(old_view, kk) {
                        let i = choose|i: int| 0 <= i < old_view.len() && old_view[i].0 == kk;
                        assert(s[i].0 == kk);
                    }
                    if has_key(s, kk) {
                        let i = choose|i: int| 0 <= i < s.len() && s[i].0 == kk;
                        assert(old_view[i].0 == kk);
                    }
                    assert(s[pos as int].0 == k);
                }
                assert forall|kk: Seq<u8>| has_key(s, kk) implies #[trigger] entries_map(s)[kk]
                    == entries_map(old_view).insert(k, value@)[kk] by {
                    let i = choose|i: int| 0 <= i < s.len() && s[i].0 == kk;
                    lemma_key_index(s, i);
                    if kk != k {
                        assert(i != pos);
                        assert(s[i] == old_view[i]);
                        lemma_key_index(old_view, i);
                    } else if i != pos {
                        lemma_sorted_distinct(s, i, pos as int);
                    }
                }
            }
        }
    } else {
        proof {
            if pos < entries_of(data@).len() {
                assert(entries_of(data@)[pos as int].0 == data@[pos as int].0@);
                lemma_lex_total(entries_of(data@)[pos as int].0, k, 0);
            }
        }
        data.insert(pos, (slice_to_vec(key), slice_to_vec(value)));
        proof {
            let s = entries_of(data@);
            assert(s =~= old_view.insert(pos as int, (k, value@)));
            assert(sorted_keys(s)) by {
                assert forall|i: int, j: int| 0 <= i < j < s.len() implies lex_lt(
                    #[trigger] s[i].0,
                    #[trigger] s[j].0,
                ) by {
                    if j < pos {
                        assert(s[i] == old_view[i] && s[j] == old_view[j]);
                    } else if j == pos {
                        assert(s[i] == old_view[i]);
                    } else if i == pos {
                        assert(s[j] == old_view[j - 1]);
                        if j - 1 > pos {
                            assert(lex_lt(old_view[pos as int].0, old_view[j - 1].0));
                            lemma_lex_transitive(k, old_view[pos as int].0, old_view[j - 1].0, 0);
                        }
                    } else if i < pos {
                        assert(s[i] == old_view[i] && s[j] == old_view[j - 1]);
                        assert(lex_lt(k, old_view[j - 1].0)) by {
                            if j - 1 > pos {
                                assert(lex_lt(old_view[pos as int].0, old_view[j - 1].0));
                                lemma_lex_transitive(k, old_view[pos as int].0, old_view[j - 1].0, 0);
                            }
                        }
                        lemma_lex_transitive(old_view[i].0, k, old_view[j - 1].0, 0);
                    } else {
                        assert(s[i] == old_view[i - 1] && s[j] == old_view[j - 1]);
                    }
                }
            }
            assert(!has_key(old_view, k)) by {
                if has_key(old_view, k) {
                    let i = choose|i: int| 0 <= i < old_view.len() && old_view[i].0 == k;
                    lemma_lex_irreflexive(k, 0);
                    if i >= pos && i != pos {
                        assert(lex_lt(old_view[pos as int].0, old_view[i].0));
                    }
                }
            }
            assert(entries_map(entries_of(data@)) =~= entries_map(old_view).insert(k, value@)) by {
                assert forall|kk: Seq<u8>| #[trigger] has_key(s, kk) == (has_key(old_view, kk)
                    || kk == k) by {
                    if has_key(old_view, kk) {
                        let i = choose|i: int| 0 <= i < old_view.len() && old_view[i].0 == kk;
                        if i < pos {
                            assert(s[i].0 == kk);
                        } else {
                            assert(s[i + 1].0 == kk);
                        }
                    }
                    if has_key(s, kk) {
                        let i = choose|i: int| 0 <= i < s.len() && s[i].0 == kk;
                        if i < pos {
                            assert(old_view[i].0 == kk);
                        } else if i > pos {
                            assert(old_view[i - 1].0 == kk);
                        }
                    }
                    assert(s[pos as int].0 == k);
                }
                assert forall|kk: Seq<u8>| has_key(s, kk) implies #[trigger] entries_map(s)[kk]
                    == entries_map(old_view).insert(k, value@)[kk] by {
                    let i = choose|i: int| 0 <= i < s.len() && s[i].0 == kk;
                    lemma_key_index(s, i);
                    if i < pos {
                        lemma_key_index(old_view, i);
                    } else if i > pos {
                        lemma_key_index(old_view, i - 1);
                    }
                }
            }
        }
    }
}

/// The value of `key`, if it is present.
fn get_in(data: &Vec<(Vec<u8>, Vec<u8>)>, key: &[u8]) -> (r: Option<Vec<u8>>)
    requires
        sorted_keys(entries_of(data@)),
    ensures
        r is Some <==> entries_map(entries_of(data@)).contains_key(key@),
        r is Some ==> r.unwrap()@ == entries_map(entries_of(data@))[key@],
{
    let pos = lower_bound(data, key);
    if pos < data.len() && bytes_equal(data[pos].0.as_slice(), key) {
        proof {
            assert(entries_of(data@)[pos as int].0 == key@);
            lemma_key_index(entries_of(data@), pos as int);
        }
        Some(slice_to_vec(data[pos].1.as_slice()))
    } else {
        proof {
            if has_key(entries_of(data@), key@) {
                let i = choose|i: int| 0 <= i < entries_of(data@).len() && entries_of(data@)[i].0 == key@;
                lemma_lex_irreflexive(key@, 0);
                if i > pos {
                    assert(lex_lt(entries_of(data@)[pos as int].0, entries_of(data@)[i].0));
                    assert(pos < entries_of(data@).len());
                    assert(entries_of(data@)[pos as int].0 == data@[pos as int].0@);
                    lemma_lex_total(entries_of(data@)[pos as int].0, key@, 0);
                    lemma_lex_transitive(key@, entries_of(data@)[pos as int].0, key@, 0);
                }
            }
        }
        None
    }
}

/// Removes `key`, if it is present.
fn delete_in(data: &mut Vec<(Vec<u8>, Vec<u8>)>, key: &[u8])
    requires
        sorted_keys(entries_of(old(data)@)),
    ensures
        sorted_keys(entries_of(final(data)@)),
        entries_map(entries_of(final(data)@)) == entries_map(entries_of(old(data)@)).remove(key@),
{
    let ghost old_view = entries_of(data@);
    let pos = lower_bound(data, key);
    if pos < data.len() && bytes_equal(data[pos].0.as_slice(), key) {
        let _ = data.remove(pos);
        proof {
            let s = entries_of(data@);
            let k = key@;
            assert(s =~= old_view.remove(pos as int));
            assert(sorted_keys(s)) by {
                assert forall|i: int, j: int| 0 <= i < j < s.len() implies lex_lt(
                    #[trigger] s[i].0,
                    #[trigger] s[j].0,
                ) by {
                    if j < pos {
                        assert(s[i] == old_view[i] && s[j] == old_view[j]);
                    } else if i < pos {
                        assert(s[i] == old_view[i] && s[j] == old_view[j + 1]);
                    } else {
                        assert(s[i] == old_view[i + 1] && s[j] == old_view[j + 1]);
                    }
                }
            }
            assert(entries_map(entries_of(data@)) =~= entries_map(old_view).remove(k)) by {
                assert forall|kk: Seq<u8>| #[trigger] has_key(s, kk) == (has_key(old_view, kk)
                    && kk != k) by {
                    if has_key(old_view, kk) && kk != k {
                        let i = choose|i: int| 0 <= i < old_view.len() && old_view[i].0 == kk;
                        if i < pos {
                            assert(s[i].0 == kk);
                        } else {
                            assert(i != pos);
                            assert(s[i - 1].0 == kk);
                        }
                    }
                    if has_key(s, kk) {
                        let i = choose|i: int| 0 <= i < s.len() && s[i].0 == kk;
                        if i < pos {
                            assert(old_view[i].0 == kk);
                            lemma_sorted_distinct(old_view, i, pos as int);
                        } else {
                            assert(old_view[i + 1].0 == kk);
                            lemma_sorted_distinct(old_view, i + 1, pos as int);
                        }
                    }
                }
                assert forall|kk: Seq<u8>| has_key(s, kk) implies #[trigger] entries_map(s)[kk]
                    == entries_map(old_view).remove(k)[kk] by {
                    let i = choose|i: int| 0 <= i < s.len() && s[i].0 == kk;
                    lemma_key_index(s, i);
                    if i < pos {
                        lemma_key_index(old_view, i);
                    } else {
                        lemma_key_index(old_view, i + 1);
                    }
                }
            }
        }
    } else {
        proof {
            if has_key(old_view, key@) {
                let i = choose|i: int| 0 <= i < old_view.len() && old_view[i].0 == key@;
                lemma_lex_irreflexive(key@, 0);
                if i > pos {
                    assert(lex_lt(old_view[pos as int].0, old_view[i].0));
                    assert(old_view[pos as int].0 == data@[pos as int].0@);
                    lemma_lex_total(old_view[pos as int].0, key@, 0);
                    lemma_lex_transitive(key@, old_view[pos as int].0, key@, 0);
                }
            }
            assert(entries_map(old_view).remove(key@) =~= entries_map(old_view));
        }
    }
}

/// The entries whose key starts with `prefix`, in increasing order of key.
fn scan_in(data: &Vec<(Vec<u8>, Vec<u8>)>, prefix: &[u8]) -> (r: Vec<(Vec<u8>, Vec<u8>)>)
    requires
        sorted_keys(entries_of(data@)),
    ensures
        entries_of(r@) == entries_with_prefix(entries_of(data@), prefix@),
{
    let mut out: Vec<(Vec<u8>, Vec<u8>)> = Vec::new();
    let ghost pred = |e: (Seq<u8>, Seq<u8>)| is_prefix(prefix@, e.0);
    let mut i: usize = 0;
    while i < data.len()
        invariant
            i <= entries_of(data@).len(),
            entries_of(data@).len() == data@.len(),
            pred == (|e: (Seq<u8>, Seq<u8>)| is_prefix(prefix@, e.0)),
            Seq::new(out@.len(), |j: int| (out@[j].0@, out@[j].1@)) == entries_of(data@).take(i as int).filter(pred),
        decreases data.len() - i,
    {
        let ghost before = Seq::new(out@.len(), |j: int| (out@[j].0@, out@[j].1@));
        let e = &data[i];
        let ghost ev = entries_of(data@)[i as int];
        assert(ev == (e.0@, e.1@));
        if starts_with(e.0.as_slice(), prefix) {
            out.push((slice_to_vec(e.0.as_slice()), slice_to_vec(e.1.as_slice())));
            assert(Seq::new(out@.len(), |j: int| (out@[j].0@, out@[j].1@)) =~= before.push(ev));
        } else {
            assert(Seq::new(out@.len(), |j: int| (out@[j].0@, out@[j].1@)) =~= before);
        }
        proof {
            entries_of(data@).take(i as int).lemma_filter_push(ev, pred);
            assert(entries_of(data@).take(i as int).push(ev) =~= entries_of(data@).take(i as int + 1));
        }
        i = i + 1;
    }
    assert(entries_of(data@).take(entries_of(data@).len() as int) =~= entries_of(data@));
    out
}

/// In entries sorted by key, no two entries share a key.
pub proof fn lemma_sorted_unique(s: Seq<(Seq<u8>, Seq<u8>)>, i: int, j: int)
    requires
        sorted_keys(s),
        0 <= i < s.len(),
        0 <= j < s.len(),
        s[i].0 == s[j].0,
    ensures
        i == j,
{
    if i < j {
        assert(lex_lt(s[i].0, s[j].0));
        lemma_lex_irreflexive(s[i].0, 0);
    } else if j < i {
        assert(lex_lt(s[j].0, s[i].0));
        lemma_lex_irreflexive(s[i].0, 0);
    }
}

/// Keeping some of the entries sorted by key keeps them sorted, and every entry
/// kept is one of the given entries.
pub proof fn lemma_filter_keeps_order(s: Seq<(Seq<u8>, Seq<u8>)>, pred: spec_fn((Seq<u8>, Seq<u8>)) -> bool)
    requires
        sorted_keys(s),
    ensures
        sorted_keys(s.filter(pred)),
        forall|i: int| 0 <= i < s.filter(pred).len() ==> s.contains(#[trigger] s.filter(pred)[i]),
    decreases s.len(),
{
    if s.len() > 0 {
        let init = s.drop_last();
        let last = s.last();
        assert(sorted_keys(init)) by {
            assert forall|i: int, j: int| 0 <= i < j < init.len() implies lex_lt(
                #[trigger] init[i].0,
                #[trigger] init[j].0,
            ) by {
                assert(init[i] == s[i] && init[j] == s[j]);
            }
        }
        lemma_filter_keeps_order(init, pred);
        assert(init.push(last) =~= s);
        init.lemma_filter_push(last, pred);
        let f0 = init.filter(pred);
        let f = s.filter(pred);
        assert forall|i: int| 0 <= i < f0.len() implies s.contains(#[trigger] f0[i]) by {
            let k = choose|k: int| 0 <= k < init.len() && init[k] == f0[i];
            assert(s[k] == f0[i]);
        }
        if pred(last) {
            assert(f == f0.push(last));
            assert forall|i: int, j: int| 0 <= i < j < f.len() implies lex_lt(
                #[trigger] f[i].0,
                #[trigger] f[j].0,
            ) by {
                if j == f.len() - 1 {
                    let k = choose|k: int| 0 <= k < init.len() && init[k] == f0[i];
                    assert(s[k] == f[i]);
                    assert(s[s.len() - 1] == f[j]);
                } else {
                    assert(f[i] == f0[i] && f[j] == f0[j]);
                }
            }
            assert forall|i: int| 0 <= i < f.len() implies s.contains(#[trigger] f[i]) by {
                if i == f.len() - 1 {
                    assert(s[s.len() - 1] == f[i]);
                } else {
                    assert(f[i] == f0[i]);
                }
            }
        }
    }
}

/// The entries of sorted `s` whose key starts with `p` represent the map of `s`
/// restricted to the keys that start with `p`.
pub proof fn lemma_prefix_entries_map(s: Seq<(Seq<u8>, Seq<u8>)>, p: Seq<u8>)
    requires
        sorted_keys(s),
    ensures
        sorted_keys(entries_with_prefix(s, p)),
        entries_map(entries_with_prefix(s, p)) == entries_map(s).restrict(
            entries_map(s).dom().filter(|k: Seq<u8>| is_prefix(p, k)),
        ),
{
    let pred = |e: (Seq<u8>, Seq<u8>)| is_prefix(p, e.0);
    let f = s.filter(pred);
    lemma_filter_keeps_order(s, pred);
    s.filter_lemma(pred);
    let lhs = entries_map(f);
    let rhs = entries_map(s).restrict(entries_map(s).dom().filter(|k: Seq<u8>| is_prefix(p, k)));
    assert forall|k: Seq<u8>| lhs.dom().contains(k) <==> rhs.dom().contains(k) by {
        if has_key(f, k) {
            let i = choose|i: int| 0 <= i < f.len() && f[i].0 == k;
            assert(s.contains(f[i]));
            let j = choose|j: int| 0 <= j < s.len() && s[j] == f[i];
            assert(pred(f[i]));
            assert(has_key(s, k));
        }
        if rhs.dom().contains(k) {
            let j = choose|j: int| 0 <= j < s.len() && s[j].0 == k;
            assert(pred(s[j]));
            assert(f.contains(s[j]));
            let i = choose|i: int| 0 <= i < f.len() && f[i] == s[j];
            assert(has_key(f, k));
        }
    }
    assert forall|k: Seq<u8>| #[trigger] lhs.dom().contains(k) implies lhs[k] == rhs[k] by {
        let i = key_index(f, k);
        assert(0 <= i < f.len() && f[i].0 == k);
        assert(s.contains(f[i]));
        let j = choose|j: int| 0 <= j < s.len() && s[j] == f[i];
        assert(has_key(s, k));
        let j2 = key_index(s, k);
        lemma_sorted_unique(s, j, j2);
    }
    assert(lhs =~= rhs);
}

impl InMemoryStorage {
    /// The entries are sorted by key.
    #[verifier::type_invariant]
    closed spec fn sorted(&self) -> bool {
        sorted_keys(entries_of(self.data@))
    }

    /// The map that the storage holds.
    pub open spec fn contents(&self) -> Map<Seq<u8>, Seq<u8>> {
        entries_map(self@)
    }

    pub fn new() -> (r: Self)
        ensures
            r@ == Seq::<(Seq<u8>, Seq<u8>)>::empty(),
    {
        let r = Self { data: Vec::new() };
        assert(r@ =~= Seq::<(Seq<u8>, Seq<u8>)>::empty());
        r
    }

    /// Sets the value of `key`.
    pub fn put_entry(&mut self, key: &[u8], value: &[u8])
        ensures
            final(self).contents() == old(self).contents().insert(key@, value@),
            sorted_keys(final(self)@),
    {
        proof {
            use_type_invariant(&*self);
        }
        let mut data: Vec<(Vec<u8>, Vec<u8>)> = Vec::new();
        core::mem::swap(&mut data, &mut self.data);
        put_in(&mut data, key, value);
        self.data = data;
    }

    /// The value of `key`, if it is present.
    pub fn get_entry(&self, key: &[u8]) -> (r: Option<Vec<u8>>)
        ensures
            r is Some <==> self.contents().contains_key(key@),
            r is Some ==> r.unwrap()@ == self.contents()[key@],
    {
        proof {
            use_type_invariant(self);
        }
        get_in(&self.data, key)
    }

    /// Removes `key`, if it is present.
    pub fn delete_entry(&mut self, key: &[u8])
        ensures
            final(self).contents() == old(self).contents().remove(key@),
            sorted_keys(final(self)@),
    {
        proof {
            use_type_invariant(&*self);
        }
        let mut data: Vec<(Vec<u8>, Vec<u8>)> = Vec::new();
        core::mem::swap(&mut data, &mut self.data);
        delete_in(&mut data, key);
        self.data = data;
    }

    /// The entries whose key starts with `prefix`, in increasing order of key.
    pub fn scan_entries(&self, prefix: &[u8]) -> (r: Vec<(Vec<u8>, Vec<u8>)>)
        ensures
            entries_of(r@) == entries_with_prefix(self@, prefix@),
            sorted_keys(self@),
    {
        proof {
            use_type_invariant(self);
        }
        scan_in(&self.data, prefix)
    }
}

impl Storage for InMemoryStorage {
    open spec fn stored(&self) -> Map<Seq<u8>, Seq<u8>> {
        self.contents()
    }

    fn put(&mut self, key: &[u8], value: &[u8]) -> (r: crate::Result<()>)
        ensures
            r is Ok,
            final(self).contents() == old(self).contents().insert(key@, value@),
    {
        self.put_entry(key, value);
        Ok(())
    }

    fn get(&self, key: &[u8]) -> (r: crate::Result<Option<Vec<u8>>>)
        ensures
            r is Ok,
            r.unwrap() is Some <==> self.contents().contains_key(key@),
            r.unwrap() is Some ==> r.unwrap().unwrap()@ == self.contents()[key@],
    {
        Ok(self.get_entry(key))
    }

    fn delete(&mut self, key: &[u8]) -> (r: crate::Result<()>)
        ensures
            r is Ok,
            final(self).contents() == old(self).contents().remove(key@),
    {
        self.delete_entry(key);
        Ok(())
    }

    fn scan_prefix(&self, prefix: &[u8]) -> (r: crate::Result<Vec<(Vec<u8>, Vec<u8>)>>)
        ensures
            r is Ok,
            entries_of(r.unwrap()@) == entries_with_prefix(self@, prefix@),
    {
        proof {
            use_type_invariant(self);
            lemma_prefix_entries_map(self@, prefix@);
        }
        Ok(self.scan_entries(prefix))
    }
}

impl Default for InMemoryStorage {
    fn default() -> (r: Self)
        ensures
            r@ == Seq::<(Seq<u8>, Seq<u8>)>::empty(),
    {
        Self::new()
    }
}

} // verus!
