//! The set of names that the patterns of one arm capture, kept in the order
//! in which the names are emitted.

use vstd::prelude::*;
use vstd::utf8::decode_utf8;
use vstd::utf8::encode_utf8;

verus! {

/// Lexicographic order on byte strings: the first byte that differs
/// decides, and a proper prefix comes first.
pub open spec fn bytes_less(a: Seq<u8>, b: Seq<u8>) -> bool
    decreases a.len(),
{
    if b.len() == 0 {
        false
    } else if a.len() == 0 {
        true
    } else if a[0] != b[0] {
        a[0] < b[0]
    } else {
        bytes_less(a.skip(1), b.skip(1))
    }
}

/// The order of names: that of their UTF-8 bytes, which is the order of
/// Rust strings.
pub open spec fn name_less(a: Seq<char>, b: Seq<char>) -> bool {
    bytes_less(encode_utf8(a), encode_utf8(b))
}

/// Each name comes before every later one. Such a sequence holds no name
/// twice.
pub open spec fn strictly_sorted(names: Seq<Seq<char>>) -> bool {
    forall|i: int, j: int| 0 <= i < j < names.len() ==> name_less(names[i], names[j])
}

/// The names that a vector of strings holds, in order.
pub open spec fn names_of(v: Seq<String>) -> Seq<Seq<char>> {
    v.map_values(|s: String| s@)
}

pub proof fn lemma_bytes_less_irreflexive(a: Seq<u8>)
    ensures
        !bytes_less(a, a),
    decreases a.len(),
{
    if a.len() > 0 {
        lemma_bytes_less_irreflexive(a.skip(1));
    }
}

pub proof fn lemma_bytes_less_transitive(a: Seq<u8>, b: Seq<u8>, c: Seq<u8>)
    requires
        bytes_less(a, b),
        bytes_less(b, c),
    ensures
        bytes_less(a, c),
    decreases a.len(),
{
    if a.len() > 0 && a[0] == b[0] && b[0] == c[0] {
        lemma_bytes_less_transitive(a.skip(1), b.skip(1), c.skip(1));
    }
}

/// Of two byte strings one comes first, or they are equal.
pub proof fn lemma_bytes_less_total(a: Seq<u8>, b: Seq<u8>)
    ensures
        bytes_less(a, b) || bytes_less(b, a) || a == b,
    decreases a.len(),
{
    if a.len() > 0 && b.len() > 0 && a[0] == b[0] {
        lemma_bytes_less_total(a.skip(1), b.skip(1));
        if a.skip(1) == b.skip(1) {
            assert(a =~= seq![a[0]] + a.skip(1));
            assert(b =~= seq![b[0]] + b.skip(1));
        }
    } else if a.len() == 0 && b.len() == 0 {
        assert(a =~= b);
    }
}

/// Two sorted sequences with the same names are the same sequence: the
/// order in which names are emitted depends on the set alone.
pub proof fn sorted_names_are_unique(a: Seq<Seq<char>>, b: Seq<Seq<char>>)
    requires
        strictly_sorted(a),
        strictly_sorted(b),
        a.to_set() == b.to_set(),
    ensures
        a == b,
    decreases a.len(),
{
    if a.len() == 0 {
        if b.len() > 0 {
            assert(b.contains(b[0]));
            assert(b.to_set().contains(b[0]));
            assert(a.contains(b[0]));
        }
        assert(a =~= b);
    } else if b.len() == 0 {
        assert(a.contains(a[0]));
        assert(a.to_set().contains(a[0]));
        assert(b.contains(a[0]));
    } else {
        // The two heads are each the least name of the common set.
        assert(a.contains(a[0]));
        assert(b.to_set().contains(a[0]));
        assert(b.contains(a[0]));
        let ib = choose|k: int| 0 <= k < b.len() && b[k] == a[0];
        assert(b.contains(b[0]));
        assert(a.to_set().contains(b[0]));
        assert(a.contains(b[0]));
        let ia = choose|k: int| 0 <= k < a.len() && a[k] == b[0];
        if ib != 0 {
            // b[0] < a[0], and b[0] stands in a at or behind a[0]
            assert(name_less(b[0], b[ib]));
            if ia == 0 {
                lemma_bytes_less_irreflexive(encode_utf8(a[0]));
            } else {
                assert(name_less(a[0], a[ia]));
                lemma_bytes_less_transitive(
                    encode_utf8(a[0]),
                    encode_utf8(b[0]),
                    encode_utf8(a[0]),
                );
                lemma_bytes_less_irreflexive(encode_utf8(a[0]));
            }
        }
        assert(a[0] == b[0]);
        let ta = a.skip(1);
        let tb = b.skip(1);
        assert(strictly_sorted(ta)) by {
            assert forall|i: int, j: int| 0 <= i < j < ta.len() implies name_less(
                ta[i],
                ta[j],
            ) by {
                assert(name_less(a[i + 1], a[j + 1]));
            }
        }
        assert(strictly_sorted(tb)) by {
            assert forall|i: int, j: int| 0 <= i < j < tb.len() implies name_less(
                tb[i],
                tb[j],
            ) by {
                assert(name_less(b[i + 1], b[j + 1]));
            }
        }
        assert(ta.to_set() =~= tb.to_set()) by {
            assert forall|n: Seq<char>| ta.contains(n) implies tb.contains(n) by {
                let k = choose|k: int| 0 <= k < ta.len() && ta[k] == n;
                assert(a[k + 1] == n);
                assert(name_less(a[0], a[k + 1]));
                assert(a.contains(n));
                assert(b.to_set().contains(n));
                assert(b.contains(n));
                let m = choose|m: int| 0 <= m < b.len() && b[m] == n;
                if m == 0 {
                    lemma_bytes_less_irreflexive(encode_utf8(n));
                }
                assert(tb[m - 1] == n);
            }
            assert forall|n: Seq<char>| tb.contains(n) implies ta.contains(n) by {
                let k = choose|k: int| 0 <= k < tb.len() && tb[k] == n;
                assert(b[k + 1] == n);
                assert(name_less(b[0], b[k + 1]));
                assert(b.contains(n));
                assert(a.to_set().contains(n));
                assert(a.contains(n));
                let m = choose|m: int| 0 <= m < a.len() && a[m] == n;
                if m == 0 {
                    lemma_bytes_less_irreflexive(encode_utf8(n));
                }
                assert(ta[m - 1] == n);
            }
        }
        sorted_names_are_unique(ta, tb);
        assert(a =~= seq![a[0]] + ta);
        assert(b =~= seq![b[0]] + tb);
    }
}

/// How one name stands to another.
#[derive(Debug, Clone, Copy, PartialEq, Eq, Structural)]
pub enum NameOrder {
    Before,
    Same,
    After,
}

/// Compares two names as Rust compares strings: byte by byte.
#[verifier::loop_isolation(false)]
pub fn order_names(a: &str, b: &str) -> (r: NameOrder)
    ensures
        r is Before <==> name_less(a@, b@),
        r is Same <==> a@ == b@,
        r is After <==> name_less(b@, a@),
{
    let x = a.as_bytes();
    let y = b.as_bytes();
    let n = x.len();
    let m = y.len();
    proof {
        lemma_bytes_less_irreflexive(x@);
        assert(decode_utf8(encode_utf8(a@)) == a@) by {
            vstd::utf8::encode_utf8_decode_utf8(a@);
        }
        assert(decode_utf8(encode_utf8(b@)) == b@) by {
            vstd::utf8::encode_utf8_decode_utf8(b@);
        }
        assert(x@.skip(0) =~= x@);
        assert(y@.skip(0) =~= y@);
    }
    let mut i: usize = 0;
    while i < n && i < m
        invariant
            n == x@.len(),
            m == y@.len(),
            0 <= i <= n,
            i <= m,
            bytes_less(x@, y@) == bytes_less(x@.skip(i as int), y@.skip(i as int)),
            bytes_less(y@, x@) == bytes_less(y@.skip(i as int), x@.skip(i as int)),
            x@.take(i as int) == y@.take(i as int),
        decreases n - i,
    {
        let ghost xs = x@.skip(i as int);
        let ghost ys = y@.skip(i as int);
        assert(xs[0] == x@[i as int] && ys[0] == y@[i as int]);
        if x[i] < y[i] {
            proof {
                lemma_order_excludes(x@, y@);
                assert(x@ != y@);
            }
            return NameOrder::Before;
        }
        if x[i] > y[i] {
            proof {
                lemma_order_excludes(y@, x@);
                assert(x@ != y@);
            }
            return NameOrder::After;
        }
        proof {
            assert(xs.skip(1) =~= x@.skip(i + 1));
            assert(ys.skip(1) =~= y@.skip(i + 1));
            assert(x@.take(i + 1) =~= x@.take(i as int).push(x@[i as int]));
            assert(y@.take(i + 1) =~= y@.take(i as int).push(y@[i as int]));
        }
        i += 1;
    }
    proof {
        if i == n {
            assert(x@.take(i as int) =~= x@);
        }
        if i == m {
            assert(y@.take(i as int) =~= y@);
        }
    }
    if n < m {
        proof {
            lemma_order_excludes(x@, y@);
        }
        NameOrder::Before
    } else if m < n {
        proof {
            lemma_order_excludes(y@, x@);
        }
        NameOrder::After
    } else {
        NameOrder::Same
    }
}

/// A byte string that comes before another is not behind it.
pub proof fn lemma_order_excludes(a: Seq<u8>, b: Seq<u8>)
    requires
        bytes_less(a, b),
    ensures
        !bytes_less(b, a),
        a != b,
{
    lemma_bytes_less_irreflexive(a);
    if bytes_less(b, a) {
        lemma_bytes_less_transitive(a, b, a);
    }
}

/// The names captured so far, without repetition.
#[derive(Debug, Clone, PartialEq, Eq)]
pub struct CaptureSet {
    names: Vec<String>,
}

impl View for CaptureSet {
    type V = Set<Seq<char>>;

    closed spec fn view(&self) -> Set<Seq<char>> {
        names_of(self.names@).to_set()
    }
}

impl CaptureSet {
    /// The invariant of the set: its names are kept sorted.
    pub closed spec fn wf(&self) -> bool {
        strictly_sorted(names_of(self.names@))
    }

    /// The empty set.
    pub fn new() -> (r: CaptureSet)
        ensures
            r.wf(),
            r@ == Set::<Seq<char>>::empty(),
    {
        let r = CaptureSet { names: Vec::new() };
        assert(r@ =~= Set::<Seq<char>>::empty()) by {
            assert forall|n: Seq<char>| !names_of(r.names@).contains(n) by {}
        }
        r
    }

    /// How many names the set holds.
    pub fn len(&self) -> (n: usize)
        requires
            self.wf(),
        ensures
            n == self@.len(),
    {
        proof {
            lemma_sorted_len(names_of(self.names@));
        }
        self.names.len()
    }

    /// Whether the set holds `name`.
    pub fn contains(&self, name: &str) -> (r: bool)
        ensures
            r == self@.contains(name@),
    {
        let mut i: usize = 0;
        while i < self.names.len()
            invariant
                0 <= i <= self.names@.len(),
                forall|j: int| 0 <= j < i ==> self.names@[j]@ != name@,
            decreases self.names@.len() - i,
        {
            if let NameOrder::Same = order_names(self.names[i].as_str(), name) {
                assert(names_of(self.names@)[i as int] == name@);
                return true;
            }
            i += 1;
        }
        assert(!names_of(self.names@).contains(name@));
        false
    }

    /// Adds `name`. A name that the set holds already changes nothing.
    pub fn insert(&mut self, name: String)
        requires
            old(self).wf(),
        ensures
            final(self).wf(),
            final(self)@ == old(self)@.insert(name@),
    {
        let ghost before = names_of(self.names@);
        let mut i: usize = 0;
        while i < self.names.len()
            invariant
                self.names == old(self).names,
                before == names_of(self.names@),
                strictly_sorted(before),
                0 <= i <= self.names@.len(),
                forall|j: int| 0 <= j < i ==> name_less(before[j], name@),
            ensures
                0 <= i <= self.names@.len(),
                i < self.names@.len() ==> name_less(name@, before[i as int]),
            decreases self.names@.len() - i,
        {
            match order_names(self.names[i].as_str(), name.as_str()) {
                NameOrder::Before => {
                    i += 1;
                },
                NameOrder::Same => {
                    proof {
                        assert(before[i as int] == name@);
                        assert(before.contains(name@));
                        assert(old(self)@.insert(name@) =~= old(self)@);
                    }
                    return ;
                },
                NameOrder::After => {
                    break ;
                },
            }
        }
        let ghost value = name@;
        self.names.insert(i, name);
        proof {
            let after = names_of(self.names@);
            assert(after =~= before.insert(i as int, value));
            assert forall|a: int, b: int| 0 <= a < b < after.len() implies name_less(
                after[a],
                after[b],
            ) by {
                if b < i {
                    assert(after[a] == before[a] && after[b] == before[b]);
                } else if b == i {
                    assert(after[a] == before[a]);
                } else if a == i {
                    assert(after[b] == before[b - 1]);
                    if b - 1 > i {
                        assert(name_less(before[i as int], before[b - 1]));
                        lemma_bytes_less_transitive(
                            encode_utf8(value),
                            encode_utf8(before[i as int]),
                            encode_utf8(before[b - 1]),
                        );
                    }
                } else if a < i {
                    assert(after[a] == before[a] && after[b] == before[b - 1]);
                } else {
                    assert(after[a] == before[a - 1] && after[b] == before[b - 1]);
                }
            }
            assert(after.to_set() =~= before.to_set().insert(value)) by {
                assert forall|n: Seq<char>| after.contains(n) implies before.contains(n) || n
                    == value by {
                    let k = choose|k: int| 0 <= k < after.len() && after[k] == n;
                    if k < i {
                        assert(before[k] == n);
                    } else if k > i {
                        assert(before[k - 1] == n);
                    }
                }
                assert forall|n: Seq<char>| before.contains(n) || n == value implies after.contains(
                    n,
                ) by {
                    if n == value {
                        assert(after[i as int] == n);
                    } else {
                        let k = choose|k: int| 0 <= k < before.len() && before[k] == n;
                        if k < i {
                            assert(after[k] == n);
                        } else {
                            assert(after[k + 1] == n);
                        }
                    }
                }
            }
        }
    }

    /// The names of the set in lexicographic order.
    pub fn into_sorted(self) -> (names: Vec<String>)
        requires
            self.wf(),
        ensures
            strictly_sorted(names_of(names@)),
            names_of(names@).to_set() == self@,
    {
        self.names
    }
}

/// A sorted sequence is as long as the set of its names is large.
pub proof fn lemma_sorted_len(names: Seq<Seq<char>>)
    requires
        strictly_sorted(names),
    ensures
        names.to_set().finite(),
        names.to_set().len() == names.len(),
{
    assert(names.no_duplicates()) by {
        assert forall|i: int, j: int| 0 <= i < names.len() && 0 <= j < names.len() && i
            != j implies names[i] != names[j] by {
            if i < j {
                assert(name_less(names[i], names[j]));
                lemma_bytes_less_irreflexive(encode_utf8(names[i]));
            } else {
                assert(name_less(names[j], names[i]));
                lemma_bytes_less_irreflexive(encode_utf8(names[i]));
            }
        }
    }
    names.unique_seq_to_set();
    vstd::seq_lib::seq_to_set_is_finite(names);
}

/// Of two names one comes first, or they are the same name.
pub proof fn lemma_name_order_total(a: Seq<char>, b: Seq<char>)
    ensures
        name_less(a, b) || name_less(b, a) || a == b,
{
    lemma_bytes_less_total(encode_utf8(a), encode_utf8(b));
    vstd::utf8::encode_utf8_decode_utf8(a);
    vstd::utf8::encode_utf8_decode_utf8(b);
}

/// Puts a name into a sorted sequence, at its place.
pub proof fn lemma_insert_sorted(q: Seq<Seq<char>>, x: Seq<char>) -> (r: Seq<Seq<char>>)
    requires
        strictly_sorted(q),
    ensures
        strictly_sorted(r),
        r.to_set() == q.to_set().insert(x),
    decreases q.len(),
{
    if q.len() == 0 {
        let r = seq![x];
        assert(r.to_set() =~= q.to_set().insert(x)) by {
            assert forall|n: Seq<char>| r.contains(n) <==> n == x by {
                if n == x {
                    assert(r[0] == n);
                }
            }
            assert forall|n: Seq<char>| !q.contains(n) by {}
        }
        r
    } else if q[0] == x {
        assert(q.contains(x));
        assert(q.to_set().insert(x) =~= q.to_set());
        q
    } else if name_less(x, q[0]) {
        let r = seq![x] + q;
        assert forall|i: int, j: int| 0 <= i < j < r.len() implies name_less(r[i], r[j]) by {
            if i == 0 {
                if j > 1 {
                    assert(name_less(q[0], q[j - 1]));
                    lemma_bytes_less_transitive(
                        encode_utf8(x),
                        encode_utf8(q[0]),
                        encode_utf8(q[j - 1]),
                    );
                }
            } else {
                assert(name_less(q[i - 1], q[j - 1]));
            }
        }
        assert(r.to_set() =~= q.to_set().insert(x)) by {
            assert forall|n: Seq<char>| r.contains(n) <==> (q.contains(n) || n == x) by {
                if r.contains(n) {
                    let k = choose|k: int| 0 <= k < r.len() && r[k] == n;
                    if k > 0 {
                        assert(q[k - 1] == n);
                    }
                }
                if q.contains(n) {
                    let k = choose|k: int| 0 <= k < q.len() && q[k] == n;
                    assert(r[k + 1] == n);
                }
                if n == x {
                    assert(r[0] == n);
                }
            }
        }
        r
    } else {
        lemma_name_order_total(x, q[0]);
        let rest = q.skip(1);
        assert(strictly_sorted(rest)) by {
            assert forall|i: int, j: int| 0 <= i < j < rest.len() implies name_less(
                rest[i],
                rest[j],
            ) by {
                assert(name_less(q[i + 1], q[j + 1]));
            }
        }
        let t = lemma_insert_sorted(rest, x);
        let r = seq![q[0]] + t;
        assert forall|k: int| 0 <= k < t.len() implies name_less(q[0], #[trigger] t[k]) by {
            assert(t.contains(t[k]));
            assert(t.to_set().contains(t[k]));
            if t[k] != x {
                assert(rest.to_set().contains(t[k]));
                assert(rest.contains(t[k]));
                let m = choose|m: int| 0 <= m < rest.len() && rest[m] == t[k];
                assert(name_less(q[0], q[m + 1]));
            }
        }
        assert forall|i: int, j: int| 0 <= i < j < r.len() implies name_less(r[i], r[j]) by {
            if i == 0 {
                assert(r[j] == t[j - 1]);
            } else {
                assert(name_less(t[i - 1], t[j - 1]));
            }
        }
        assert(r.to_set() =~= q.to_set().insert(x)) by {
            assert forall|n: Seq<char>| r.contains(n) <==> (q.contains(n) || n == x) by {
                if r.contains(n) {
                    let k = choose|k: int| 0 <= k < r.len() && r[k] == n;
                    if k == 0 {
                        assert(q[0] == n);
                    } else {
                        assert(t[k - 1] == n);
                        assert(t.contains(n));
                        assert(t.to_set().contains(n));
                        if n != x {
                            assert(rest.to_set().contains(n));
                            assert(rest.contains(n));
                            let m = choose|m: int| 0 <= m < rest.len() && rest[m] == n;
                            assert(q[m + 1] == n);
                        }
                    }
                }
                if q.contains(n) {
                    let k = choose|k: int| 0 <= k < q.len() && q[k] == n;
                    if k == 0 {
                        assert(r[0] == n);
                    } else {
                        assert(rest[k - 1] == n);
                        assert(rest.contains(n));
                        assert(rest.to_set().insert(x).contains(n));
                        assert(t.contains(n));
                        let m = choose|m: int| 0 <= m < t.len() && t[m] == n;
                        assert(r[m + 1] == n);
                    }
                }
                if n == x {
                    assert(rest.to_set().insert(x).contains(n));
                    assert(t.contains(n));
                    let m = choose|m: int| 0 <= m < t.len() && t[m] == n;
                    assert(r[m + 1] == n);
                }
            }
        }
        r
    }
}

/// The names of a set in lexicographic order. For a finite set there is
/// exactly one such sequence.
pub open spec fn sorted_names(names: Set<Seq<char>>) -> Seq<Seq<char>> {
    choose|s: Seq<Seq<char>>| strictly_sorted(s) && s.to_set() == names
}

/// Every finite set of names can be put in order.
pub proof fn sorted_names_exist(names: Set<Seq<char>>)
    requires
        names.finite(),
    ensures
        strictly_sorted(sorted_names(names)),
        sorted_names(names).to_set() == names,
        sorted_names(names).len() == names.len(),
    decreases names.len(),
{
    if names.len() == 0 {
        let e = Seq::<Seq<char>>::empty();
        assert(names =~= Set::<Seq<char>>::empty());
        assert(e.to_set() =~= names) by {
            assert forall|n: Seq<char>| !e.contains(n) by {}
        }
        assert(strictly_sorted(e) && e.to_set() == names);
    } else {
        let x = names.choose();
        let rest = names.remove(x);
        sorted_names_exist(rest);
        let r = lemma_insert_sorted(sorted_names(rest), x);
        assert(rest.insert(x) =~= names);
        assert(strictly_sorted(r) && r.to_set() == names);
    }
    lemma_sorted_len(sorted_names(names));
}

} // verus!
