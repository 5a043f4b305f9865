//! Byte-lexicographic order on strings, the order in which keys are kept.
use vstd::prelude::*;
use vstd::utf8::*;

verus! {

/// `a` comes strictly before `b` in lexicographic byte order.
pub open spec fn bytes_lt(a: Seq<u8>, b: Seq<u8>) -> bool {
    exists|i: int|
        #![trigger a.subrange(0, i), b.subrange(0, i)]
        0 <= i <= a.len() && i <= b.len() && a.subrange(0, i) == b.subrange(0, i) && ((i == a.len()
            && i < b.len()) || (i < a.len() && i < b.len() && a[i] < b[i]))
}

/// Strict order on strings: the order of their UTF-8 bytes.
pub open spec fn str_lt(a: Seq<char>, b: Seq<char>) -> bool {
    bytes_lt(encode_utf8(a), encode_utf8(b))
}

/// Every earlier element comes strictly before every later one.
pub open spec fn strictly_sorted(s: Seq<Seq<char>>) -> bool {
    forall|i: int, j: int| 0 <= i < j < s.len() ==> str_lt(#[trigger] s[i], #[trigger] s[j])
}

/// The outcome of comparing two strings.
#[derive(PartialEq, Eq, Structural, Clone, Copy, Debug)]
pub enum KeyOrder {
    Less,
    Equal,
    Greater,
}

pub proof fn lemma_bytes_lt_irreflexive(a: Seq<u8>)
    ensures
        !bytes_lt(a, a),
{
}

pub proof fn lemma_bytes_lt_asymmetric(a: Seq<u8>, b: Seq<u8>)
    requires
        bytes_lt(a, b),
    ensures
        !bytes_lt(b, a),
        a != b,
{
    let i = choose|i: int|
        #![trigger a.subrange(0, i), b.subrange(0, i)]
        0 <= i <= a.len() && i <= b.len() && a.subrange(0, i) == b.subrange(0, i) && ((i == a.len()
            && i < b.len()) || (i < a.len() && i < b.len() && a[i] < b[i]));
    if bytes_lt(b, a) {
        let j = choose|j: int|
            #![trigger b.subrange(0, j), a.subrange(0, j)]
            0 <= j <= b.len() && j <= a.len() && b.subrange(0, j) == a.subrange(0, j) && ((j
                == b.len() && j < a.len()) || (j < b.len() && j < a.len() && b[j] < a[j]));
        if i < j {
            assert(a.subrange(0, j)[i] == b.subrange(0, j)[i]);
        } else if j < i {
            assert(a.subrange(0, i)[j] == b.subrange(0, i)[j]);
        }
    }
}

pub proof fn lemma_bytes_lt_transitive(a: Seq<u8>, b: Seq<u8>, c: Seq<u8>)
    requires
        bytes_lt(a, b),
        bytes_lt(b, c),
    ensures
        bytes_lt(a, c),
{
    let i = choose|i: int|
        #![trigger a.subrange(0, i), b.subrange(0, i)]
        0 <= i <= a.len() && i <= b.len() && a.subrange(0, i) == b.subrange(0, i) && ((i == a.len()
            && i < b.len()) || (i < a.len() && i < b.len() && a[i] < b[i]));
    let j = choose|j: int|
        #![trigger b.subrange(0, j), c.subrange(0, j)]
        0 <= j <= b.len() && j <= c.len() && b.subrange(0, j) == c.subrange(0, j) && ((j == b.len()
            && j < c.len()) || (j < b.len() && j < c.len() && b[j] < c[j]));
    if i < j {
        assert(b.subrange(0, j)[i] == c.subrange(0, j)[i]);
        assert(a.subrange(0, i) =~= c.subrange(0, i)) by {
            assert forall|k: int| 0 <= k < i implies a.subrange(0, i)[k] == c.subrange(0, i)[k] by {
                assert(a.subrange(0, i)[k] == b.subrange(0, i)[k]);
                assert(b.subrange(0, j)[k] == c.subrange(0, j)[k]);
            }
        }
    } else if j < i {
        assert(a.subrange(0, i)[j] == b.subrange(0, i)[j]);
        assert(a.subrange(0, j) =~= c.subrange(0, j)) by {
            assert forall|k: int| 0 <= k < j implies a.subrange(0, j)[k] == c.subrange(0, j)[k] by {
                assert(a.subrange(0, i)[k] == b.subrange(0, i)[k]);
                assert(b.subrange(0, j)[k] == c.subrange(0, j)[k]);
            }
        }
    } else {
        assert(a.subrange(0, i) =~= c.subrange(0, i));
    }
}

pub proof fn lemma_str_lt_transitive(a: Seq<char>, b: Seq<char>, c: Seq<char>)
    requires
        str_lt(a, b),
        str_lt(b, c),
    ensures
        str_lt(a, c),
{
    lemma_bytes_lt_transitive(encode_utf8(a), encode_utf8(b), encode_utf8(c));
}

pub proof fn lemma_str_lt_asymmetric(a: Seq<char>, b: Seq<char>)
    requires
        str_lt(a, b),
    ensures
        !str_lt(b, a),
        a != b,
{
    lemma_bytes_lt_asymmetric(encode_utf8(a), encode_utf8(b));
}

/// Distinct strings of a strictly sorted sequence: no element occurs twice.
pub proof fn lemma_sorted_no_duplicates(s: Seq<Seq<char>>)
    requires
        strictly_sorted(s),
    ensures
        s.no_duplicates(),
{
    assert forall|i: int, j: int| 0 <= i < s.len() && 0 <= j < s.len() && i != j implies s[i]
        != s[j] by {
        if i < j {
            lemma_str_lt_asymmetric(s[i], s[j]);
        } else {
            lemma_str_lt_asymmetric(s[j], s[i]);
        }
    }
}

/// Compares two strings by their bytes, as `Ord` on `str` does.
pub fn compare_str(a: &str, b: &str) -> (r: KeyOrder)
    ensures
        r == KeyOrder::Less <==> str_lt(a@, b@),
        r == KeyOrder::Equal <==> a@ == b@,
        r == KeyOrder::Greater <==> str_lt(b@, a@),
{
    let x = a.as_bytes();
    let y = b.as_bytes();
    let ghost ea = encode_utf8(a@);
    let ghost eb = encode_utf8(b@);
    proof {
        encode_utf8_decode_utf8(a@);
        encode_utf8_decode_utf8(b@);
    }
    let mut i: usize = 0;
    while i < x.len() && i < y.len()
        invariant
            x@ == ea,
            y@ == eb,
            ea == encode_utf8(a@),
            eb == encode_utf8(b@),
            0 <= i <= x@.len(),
            i <= y@.len(),
            x@.subrange(0, i as int) == y@.subrange(0, i as int),
        decreases x@.len() - i,
    {
        if x[i] < y[i] {
            assert(bytes_lt(ea, eb));
            proof {
                lemma_bytes_lt_asymmetric(ea, eb);
            }
            return KeyOrder::Less;
        }
        if x[i] > y[i] {
            assert(bytes_lt(eb, ea));
            proof {
                lemma_bytes_lt_asymmetric(eb, ea);
            }
            return KeyOrder::Greater;
        }
        assert(x@.subrange(0, i + 1) =~= y@.subrange(0, i + 1)) by {
            assert(x@.subrange(0, i + 1) =~= x@.subrange(0, i as int).push(x@[i as int]));
            assert(y@.subrange(0, i + 1) =~= y@.subrange(0, i as int).push(y@[i as int]));
        }
        i = i + 1;
    }
    if x.len() < y.len() {
        assert(bytes_lt(ea, eb));
        proof {
            lemma_bytes_lt_asymmetric(ea, eb);
        }
        KeyOrder::Less
    } else if x.len() > y.len() {
        assert(bytes_lt(eb, ea));
        proof {
            lemma_bytes_lt_asymmetric(eb, ea);
        }
        KeyOrder::Greater
    } else {
        assert(x@ =~= x@.subrange(0, i as int));
        assert(y@ =~= y@.subrange(0, i as int));
        proof {
            lemma_bytes_lt_irreflexive(ea);
        }
        KeyOrder::Equal
    }
}

} // verus!

verus! {

/// A key placed between the keys before it and those after it keeps a
/// sequence strictly sorted.
pub proof fn lemma_sorted_insert(s: Seq<Seq<char>>, p: int, k: Seq<char>)
    requires
        strictly_sorted(s),
        0 <= p <= s.len(),
        forall|j: int| 0 <= j < p ==> str_lt(#[trigger] s[j], k),
        forall|j: int| p <= j < s.len() ==> str_lt(k, #[trigger] s[j]),
    ensures
        strictly_sorted(s.insert(p, k)),
{
    let t = s.insert(p, k);
    assert forall|i: int, j: int| 0 <= i < j < t.len() implies str_lt(#[trigger] t[i], #[trigger] t[j]) by {
        if i < p {
            if j < p {
                assert(t[i] == s[i] && t[j] == s[j]);
            } else if j == p {
                assert(t[i] == s[i]);
            } else {
                assert(t[i] == s[i] && t[j] == s[j - 1]);
            }
        } else if i == p {
            assert(t[j] == s[j - 1]);
        } else {
            assert(t[i] == s[i - 1] && t[j] == s[j - 1]);
        }
    }
}

} // verus!

verus! {

/// The strictly sorted sequence of the elements of `s`.
pub open spec fn sorted_form(s: Set<Seq<char>>) -> Seq<Seq<char>> {
    choose|q: Seq<Seq<char>>| strictly_sorted(q) && q.to_set() == s
}

/// Two strictly sorted sequences with the same elements are equal.
pub proof fn lemma_sorted_unique(a: Seq<Seq<char>>, b: Seq<Seq<char>>)
    requires
        strictly_sorted(a),
        strictly_sorted(b),
        a.to_set() == b.to_set(),
    ensures
        a == b,
    decreases a.len(),
{
    if a.len() == 0 {
        if b.len() > 0 {
            assert(b.to_set().contains(b[0]));
        }
        assert(a =~= b);
    } else {
        assert(a.to_set().contains(a[0]));
        assert(b.len() > 0);
        assert(b.to_set().contains(b[0]));
        let j = choose|j: int| 0 <= j < b.len() && b[j] == a[0];
        let k = choose|k: int| 0 <= k < a.len() && a[k] == b[0];
        if a[0] != b[0] {
            assert(j > 0 && k > 0);
            assert(str_lt(b[0], b[j]));
            assert(str_lt(a[0], a[k]));
            lemma_str_lt_asymmetric(a[0], b[0]);
        }
        let ta = a.drop_first();
        let tb = b.drop_first();
        assert(strictly_sorted(ta)) by {
            assert forall|x: int, y: int| 0 <= x < y < ta.len() implies str_lt(#[trigger] ta[x], #[trigger] ta[y]) by {
                assert(ta[x] == a[x + 1] && ta[y] == a[y + 1]);
            }
        }
        assert(strictly_sorted(tb)) by {
            assert forall|x: int, y: int| 0 <= x < y < tb.len() implies str_lt(#[trigger] tb[x], #[trigger] tb[y]) by {
                assert(tb[x] == b[x + 1] && tb[y] == b[y + 1]);
            }
        }
        assert forall|x: Seq<char>| ta.to_set().contains(x) <==> tb.to_set().contains(x) by {
            if ta.contains(x) {
                let p = choose|p: int| 0 <= p < ta.len() && ta[p] == x;
                assert(a[p + 1] == x);
                lemma_str_lt_asymmetric(a[0], a[p + 1]);
                assert(b.to_set().contains(x));
                let q = choose|q: int| 0 <= q < b.len() && b[q] == x;
                assert(q != 0);
                assert(tb[q - 1] == x);
            }
            if tb.contains(x) {
                let p = choose|p: int| 0 <= p < tb.len() && tb[p] == x;
                assert(b[p + 1] == x);
                lemma_str_lt_asymmetric(b[0], b[p + 1]);
                assert(a.to_set().contains(x));
                let q = choose|q: int| 0 <= q < a.len() && a[q] == x;
                assert(q != 0);
                assert(ta[q - 1] == x);
            }
        }
        assert(ta.to_set() =~= tb.to_set());
        lemma_sorted_unique(ta, tb);
        assert(a =~= b) by {
            assert forall|x: int| 0 <= x < a.len() implies a[x] == b[x] by {
                if x > 0 {
                    assert(a[x] == ta[x - 1] && b[x] == tb[x - 1]);
                }
            }
        }
    }
}

/// A strictly sorted sequence is the sorted form of its elements.
pub proof fn lemma_is_sorted_form(a: Seq<Seq<char>>)
    requires
        strictly_sorted(a),
    ensures
        sorted_form(a.to_set()) == a,
{
    let q = sorted_form(a.to_set());
    assert(strictly_sorted(a) && a.to_set() == a.to_set());
    lemma_sorted_unique(q, a);
}

} // verus!
