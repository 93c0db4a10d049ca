//! Text as the engine sees it: an order on strings, and the few string
//! operations that the patch rules need.

use vstd::prelude::*;
use vstd::utf8::*;
use vstd::string::*;

verus! {

/// Lexicographic order on sequences of ranks; a proper prefix comes first.
pub open spec fn ranks_lt(a: Seq<int>, b: Seq<int>) -> bool
    decreases a.len(),
{
    if b.len() == 0 {
        false
    } else if a.len() == 0 {
        true
    } else if a[0] != b[0] {
        a[0] < b[0]
    } else {
        ranks_lt(a.drop_first(), b.drop_first())
    }
}

pub proof fn lemma_ranks_lt_irreflexive(a: Seq<int>)
    ensures
        !ranks_lt(a, a),
    decreases a.len(),
{
    if a.len() > 0 {
        lemma_ranks_lt_irreflexive(a.drop_first());
    }
}

pub proof fn lemma_ranks_lt_asymmetric(a: Seq<int>, b: Seq<int>)
    requires
        ranks_lt(a, b),
    ensures
        !ranks_lt(b, a),
    decreases a.len(),
{
    if a.len() > 0 && b.len() > 0 && a[0] == b[0] {
        lemma_ranks_lt_asymmetric(a.drop_first(), b.drop_first());
    }
}

pub proof fn lemma_ranks_lt_transitive(a: Seq<int>, b: Seq<int>, c: Seq<int>)
    requires
        ranks_lt(a, b),
        ranks_lt(b, c),
    ensures
        ranks_lt(a, c),
    decreases a.len(),
{
    if a.len() > 0 && b.len() > 0 && c.len() > 0 && a[0] == b[0] && b[0] == c[0] {
        lemma_ranks_lt_transitive(a.drop_first(), b.drop_first(), c.drop_first());
    }
}

pub proof fn lemma_ranks_lt_total(a: Seq<int>, b: Seq<int>)
    ensures
        ranks_lt(a, b) || a == b || ranks_lt(b, a),
    decreases a.len(),
{
    if a.len() > 0 && b.len() > 0 && a[0] == b[0] {
        lemma_ranks_lt_total(a.drop_first(), b.drop_first());
        if a.drop_first() == b.drop_first() {
            assert(a =~= seq![a[0]] + a.drop_first());
            assert(b =~= seq![b[0]] + b.drop_first());
        }
    } else if a.len() == 0 && b.len() == 0 {
        assert(a =~= b);
    }
}

/// The two orders in which texts are compared.
#[derive(Clone, Copy, Debug, PartialEq, Eq, Structural)]
pub enum Order {
    /// Byte by byte: the order of identifiers.
    Bytes,
    /// Component by component: the order of paths.
    Components,
}

/// The byte that separates the components of a path.
pub open spec fn separator() -> u8 {
    0x2f
}

/// The rank of a byte. In the order of identifiers it is the byte's
/// value. In the order of paths the separator ranks first, and every other
/// byte by its value.
pub open spec fn rank(byte: u8, order: Order) -> int {
    match order {
        Order::Bytes => byte as int,
        Order::Components => if byte == separator() {
            0
        } else {
            byte + 1
        },
    }
}

/// The ranks of the bytes of an encoded text.
pub open spec fn ranks(bytes: Seq<u8>, order: Order) -> Seq<int> {
    Seq::new(bytes.len(), |i: int| rank(bytes[i], order))
}

/// Whether `a` comes before `b` in the given order: whether the ranks of
/// the UTF-8 encoding of `a` come before those of `b`.
pub open spec fn comes_before(a: Seq<char>, b: Seq<char>, order: Order) -> bool {
    ranks_lt(ranks(encode_utf8(a), order), ranks(encode_utf8(b), order))
}

/// The order on identifiers: that of their UTF-8 encodings, byte by byte.
pub open spec fn text_lt(a: Seq<char>, b: Seq<char>) -> bool {
    comes_before(a, b, Order::Bytes)
}

/// The order on paths: component by component, where `/` separates the
/// components. It is the order of the UTF-8 encodings, byte by byte, but for
/// the separator, which comes before every other byte: so a directory comes
/// before another one whose name begins with its name.
///
/// On paths in which no separator is repeated, none stands at the end and
/// no component is `.`, this is the order that `std::path::Path` gives on a
/// system whose separator is `/`. It tells apart what `Path` holds for equal:
/// `a//b`, `a/b/` and `a/./b` are three paths here, each different from `a/b`.
pub open spec fn path_lt(a: Seq<char>, b: Seq<char>) -> bool {
    comes_before(a, b, Order::Components)
}

/// Two byte strings with the same ranks are the same.
pub proof fn lemma_ranks_injective(a: Seq<u8>, b: Seq<u8>, order: Order)
    requires
        ranks(a, order) == ranks(b, order),
    ensures
        a == b,
{
    assert(a.len() == ranks(a, order).len());
    assert(b.len() == ranks(b, order).len());
    assert forall|i: int| 0 <= i < a.len() implies a[i] == b[i] by {
        assert(ranks(a, order)[i] == rank(a[i], order));
        assert(ranks(b, order)[i] == rank(b[i], order));
    }
    assert(a =~= b);
}

/// Two texts with one encoding are one text.
pub proof fn lemma_encoding_injective(a: Seq<char>, b: Seq<char>)
    requires
        encode_utf8(a) == encode_utf8(b),
    ensures
        a == b,
{
    encode_utf8_decode_utf8(a);
    encode_utf8_decode_utf8(b);
}

/// No text comes before itself.
pub proof fn lemma_lt_irreflexive(a: Seq<char>, order: Order)
    ensures
        !comes_before(a, a, order),
{
    lemma_ranks_lt_irreflexive(ranks(encode_utf8(a), order));
}

/// Of two texts at most one comes before the other.
pub proof fn lemma_lt_asymmetric(a: Seq<char>, b: Seq<char>, order: Order)
    requires
        comes_before(a, b, order),
    ensures
        !comes_before(b, a, order),
{
    lemma_ranks_lt_asymmetric(ranks(encode_utf8(a), order), ranks(encode_utf8(b), order));
}

/// What comes before a text comes before all that the text comes before.
pub proof fn lemma_lt_transitive(a: Seq<char>, b: Seq<char>, c: Seq<char>, order: Order)
    requires
        comes_before(a, b, order),
        comes_before(b, c, order),
    ensures
        comes_before(a, c, order),
{
    lemma_ranks_lt_transitive(
        ranks(encode_utf8(a), order),
        ranks(encode_utf8(b), order),
        ranks(encode_utf8(c), order),
    );
}

/// Two different texts are ordered one way or the other.
pub proof fn lemma_lt_total(a: Seq<char>, b: Seq<char>, order: Order)
    ensures
        comes_before(a, b, order) || a == b || comes_before(b, a, order),
{
    lemma_ranks_lt_total(ranks(encode_utf8(a), order), ranks(encode_utf8(b), order));
    if ranks(encode_utf8(a), order) == ranks(encode_utf8(b), order) {
        lemma_ranks_injective(encode_utf8(a), encode_utf8(b), order);
        lemma_encoding_injective(a, b);
    }
}

/// The rank of a byte.
fn rank_of(byte: u8, order: Order) -> (r: u16)
    ensures
        r == rank(byte, order),
{
    match order {
        Order::Bytes => byte as u16,
        Order::Components => if byte == 0x2f {
            0
        } else {
            byte as u16 + 1
        },
    }
}

/// Whether `a` comes strictly before `b` in the given order.
pub fn in_order(a: &str, b: &str, order: Order) -> (r: bool)
    ensures
        r == comes_before(a@, b@, order),
{
    let x = a.as_bytes();
    let y = b.as_bytes();
    let ghost xs = ranks(x@, order);
    let ghost ys = ranks(y@, order);
    let mut i: usize = 0;
    assert(xs.skip(0) =~= xs && ys.skip(0) =~= ys);
    while i < x.len() && i < y.len()
        invariant
            i <= x@.len(),
            i <= y@.len(),
            x@ == encode_utf8(a@),
            y@ == encode_utf8(b@),
            xs == ranks(x@, order),
            ys == ranks(y@, order),
            ranks_lt(xs, ys) == ranks_lt(xs.skip(i as int), ys.skip(i as int)),
        decreases x@.len() - i,
    {
        let p = rank_of(x[i], order);
        let q = rank_of(y[i], order);
        assert(xs.skip(i as int)[0] == p);
        assert(ys.skip(i as int)[0] == q);
        if p != q {
            return p < q;
        }
        assert(xs.skip(i as int).drop_first() =~= xs.skip(i + 1));
        assert(ys.skip(i as int).drop_first() =~= ys.skip(i + 1));
        i = i + 1;
    }
    x.len() < y.len()
}

/// Whether the identifier `a` comes strictly before the identifier `b`.
pub fn precedes(a: &str, b: &str) -> (r: bool)
    ensures
        r == text_lt(a@, b@),
{
    in_order(a, b, Order::Bytes)
}

/// Whether the path `a` comes strictly before the path `b`.
pub fn path_precedes(a: &str, b: &str) -> (r: bool)
    ensures
        r == path_lt(a@, b@),
{
    in_order(a, b, Order::Components)
}

/// Whether `a` and `b` are the same text.
pub fn same(a: &str, b: &str) -> (r: bool)
    ensures
        r == (a@ == b@),
{
    let x = a.as_bytes();
    let y = b.as_bytes();
    if x.len() != y.len() {
        return false;
    }
    let mut i: usize = 0;
    while i < x.len()
        invariant
            i <= x@.len(),
            x@.len() == y@.len(),
            x@ == encode_utf8(a@),
            y@ == encode_utf8(b@),
            forall|k: int| 0 <= k < i ==> x@[k] == y@[k],
        decreases x@.len() - i,
    {
        if x[i] != y[i] {
            return false;
        }
        i = i + 1;
    }
    proof {
        assert(x@ =~= y@);
        lemma_encoding_injective(a@, b@);
    }
    true
}

/// The texts of a list of strings.
pub open spec fn texts(list: Seq<String>) -> Seq<Seq<char>> {
    Seq::new(list.len(), |i: int| list[i]@)
}

/// The pieces of `s` between the occurrences of `sep`. A text without
/// `sep` is one piece; two occurrences side by side hold an empty piece.
pub open spec fn pieces(s: Seq<char>, sep: char) -> Seq<Seq<char>>
    decreases s.len(),
{
    if s.len() == 0 {
        seq![Seq::empty()]
    } else {
        let before = pieces(s.drop_last(), sep);
        if s.last() == sep {
            before.push(Seq::empty())
        } else {
            before.drop_last().push(before.last().push(s.last()))
        }
    }
}

/// Splits `s` at every occurrence of `sep`.
pub fn split(s: &str, sep: char) -> (r: Vec<String>)
    ensures
        texts(r@) == pieces(s@, sep),
{
    let n = s.unicode_len();
    let mut done: Vec<String> = Vec::new();
    let mut start: usize = 0;
    let mut i: usize = 0;
    assert(s@.take(0) =~= Seq::<char>::empty());
    assert(texts(done@).push(s@.subrange(0, 0)) =~= pieces(s@.take(0), sep));
    while i < n
        invariant
            start <= i <= n,
            n == s@.len(),
            pieces(s@.take(i as int), sep) == texts(done@).push(s@.subrange(start as int, i as int)),
        decreases n - i,
    {
        let c = s.get_char(i);
        let ghost before = pieces(s@.take(i as int), sep);
        proof {
            let upto = s@.take(i + 1);
            assert(upto.drop_last() =~= s@.take(i as int));
            assert(upto.last() == c);
            assert(before.drop_last() =~= texts(done@));
            assert(before.last() == s@.subrange(start as int, i as int));
        }
        if c == sep {
            let piece = s.substring_char(start, i).to_owned();
            done.push(piece);
            start = i + 1;
            proof {
                assert(texts(done@) =~= before);
                assert(s@.subrange(start as int, i + 1) =~= Seq::<char>::empty());
                assert(texts(done@).push(s@.subrange(start as int, i + 1)) =~= pieces(
                    s@.take(i + 1),
                    sep,
                ));
            }
        } else {
            proof {
                assert(s@.subrange(start as int, i as int).push(c) =~= s@.subrange(start as int, i + 1));
                assert(texts(done@).push(s@.subrange(start as int, i + 1)) =~= pieces(
                    s@.take(i + 1),
                    sep,
                ));
            }
        }
        i = i + 1;
    }
    let piece = s.substring_char(start, n).to_owned();
    done.push(piece);
    proof {
        assert(s@.take(n as int) =~= s@);
        assert(texts(done@) =~= pieces(s@, sep));
    }
    done
}

/// The characters that count as white space: those with the Unicode property
/// `White_Space`.
pub open spec fn is_white_space(c: char) -> bool {
    ||| c == '\u{9}'
    ||| c == '\u{a}'
    ||| c == '\u{b}'
    ||| c == '\u{c}'
    ||| c == '\u{d}'
    ||| c == '\u{20}'
    ||| c == '\u{85}'
    ||| c == '\u{a0}'
    ||| c == '\u{1680}'
    ||| c == '\u{2000}'
    ||| c == '\u{2001}'
    ||| c == '\u{2002}'
    ||| c == '\u{2003}'
    ||| c == '\u{2004}'
    ||| c == '\u{2005}'
    ||| c == '\u{2006}'
    ||| c == '\u{2007}'
    ||| c == '\u{2008}'
    ||| c == '\u{2009}'
    ||| c == '\u{200a}'
    ||| c == '\u{2028}'
    ||| c == '\u{2029}'
    ||| c == '\u{202f}'
    ||| c == '\u{205f}'
    ||| c == '\u{3000}'
}

/// `s` without its leading white space.
pub open spec fn trim_start(s: Seq<char>) -> Seq<char>
    decreases s.len(),
{
    if s.len() > 0 && is_white_space(s[0]) {
        trim_start(s.drop_first())
    } else {
        s
    }
}

/// `s` without its trailing white space.
pub open spec fn trim_end(s: Seq<char>) -> Seq<char>
    decreases s.len(),
{
    if s.len() > 0 && is_white_space(s.last()) {
        trim_end(s.drop_last())
    } else {
        s
    }
}

/// `s` without leading and trailing white space.
pub open spec fn trimmed(s: Seq<char>) -> Seq<char> {
    trim_end(trim_start(s))
}

/// Calls `str::trim`. Trusted: the slice that comes back is `s` with the
/// white space at both ends removed, white space being the characters of the
/// Unicode property `White_Space`, as the documentation of `trim` says.
#[verifier::external_body]
pub(crate) fn trim<'a>(s: &'a str) -> (r: &'a str)
    ensures
        r@ == trimmed(s@),
{
    s.trim()
}

/// Whether the character occurs in `s`.
pub fn contains_char(s: &str, c: char) -> (r: bool)
    ensures
        r == s@.contains(c),
{
    let n = s.unicode_len();
    let mut i: usize = 0;
    while i < n
        invariant
            i <= n,
            n == s@.len(),
            forall|k: int| 0 <= k < i ==> s@[k] != c,
        decreases n - i,
    {
        if s.get_char(i) == c {
            return true;
        }
        i = i + 1;
    }
    false
}

} // verus!
