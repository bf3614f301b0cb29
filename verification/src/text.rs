use vstd::prelude::*;
use vstd::string::*;

verus! {

/// `needle` sits in `hay` starting at position `k`.
pub open spec fn occurs_at(hay: Seq<char>, needle: Seq<char>, k: int) -> bool {
    0 <= k && k + needle.len() <= hay.len() && hay.subrange(k, k + needle.len()) == needle
}

/// `needle` sits somewhere in `hay` (the empty text sits everywhere).
pub open spec fn contains_text(hay: Seq<char>, needle: Seq<char>) -> bool {
    exists|k: int| occurs_at(hay, needle, k)
}

/// Lexicographic order on texts, character by character (characters by code
/// point); a
/// proper prefix comes first.  For valid UTF-8 this is the order of the
/// encoded bytes, which is how `String`s compare.
pub open spec fn text_lt(a: Seq<char>, b: Seq<char>) -> bool
    decreases a.len(),
{
    if b.len() == 0 {
        false
    } else if a.len() == 0 {
        true
    } else if a[0] != b[0] {
        a[0] < b[0]
    } else {
        text_lt(a.drop_first(), b.drop_first())
    }
}

/// The decimal digit `d` as a character.
pub open spec fn digit_char(d: nat) -> char {
    seq!['0', '1', '2', '3', '4', '5', '6', '7', '8', '9'][d as int]
}

/// The decimal numeral of `n`, without leading zeros.
pub open spec fn decimal(n: nat) -> Seq<char>
    decreases n,
{
    if n < 10 {
        seq![digit_char(n)]
    } else {
        decimal(n / 10).push(digit_char(n % 10))
    }
}

/// What `str::to_lowercase` gives for a text: the full Unicode lowercase
/// mapping of each character, one after the other.
pub uninterp spec fn lowercase(s: Seq<char>) -> Seq<char>;

/// Lower-cases a text by calling std's `str::to_lowercase`.  The contract
/// says only that the result is a function of the text (named `lowercase`);
/// the Unicode case tables are left unstated.
#[verifier::external_body]
pub fn to_lowercase(s: &str) -> (r: String)
    ensures
        r@ == lowercase(s@),
{
    s.to_lowercase()
}

/// The characters of a text, in order.
pub fn chars_of(s: &str) -> (r: Vec<char>)
    ensures
        r@ == s@,
{
    let n = s.unicode_len();
    let mut r: Vec<char> = Vec::new();
    let mut i: usize = 0;
    while i < n
        invariant
            n == s@.len(),
            i <= n,
            r@ == s@.subrange(0, i as int),
        decreases n - i,
    {
        let c = s.get_char(i);
        r.push(c);
        i = i + 1;
        assert(r@ =~= s@.subrange(0, i as int));
    }
    assert(r@ =~= s@);
    r
}

/// Whether `needle` occurs in `hay`, as `str::contains` answers.
pub fn text_contains(hay: &str, needle: &str) -> (b: bool)
    ensures
        b == contains_text(hay@, needle@),
{
    let h = chars_of(hay);
    let n = chars_of(needle);
    if n.len() > h.len() {
        proof {
            assert forall|k: int| !occurs_at(hay@, needle@, k) by {}
        }
        return false;
    }
    let last = h.len() - n.len();
    let mut k: usize = 0;
    loop
        invariant
            h@ == hay@,
            n@ == needle@,
            last == h@.len() - n@.len(),
            n@.len() <= h@.len(),
            k <= last,
            forall|kk: int| 0 <= kk < k ==> !occurs_at(hay@, needle@, kk),
        ensures
            forall|kk: int| 0 <= kk <= last ==> !occurs_at(hay@, needle@, kk),
        decreases last - k,
    {
        let mut j: usize = 0;
        let mut same = true;
        while j < n.len()
            invariant
                h@ == hay@,
                n@ == needle@,
                k + n@.len() <= h@.len(),
                j <= n@.len(),
                same == (forall|jj: int| 0 <= jj < j ==> h@[k + jj] == n@[jj]),
            decreases n@.len() - j,
        {
            let hl = h.len();
            assert(k + j < hl);
            if h[k + j] != n[j] {
                same = false;
            }
            j = j + 1;
        }
        if same {
            proof {
                assert(hay@.subrange(k as int, k + needle@.len()) =~= needle@);
                assert(occurs_at(hay@, needle@, k as int));
            }
            return true;
        }
        proof {
            if occurs_at(hay@, needle@, k as int) {
                let jj = choose|jj: int| 0 <= jj < n@.len() && h@[k + jj] != n@[jj];
                assert(hay@.subrange(k as int, k + needle@.len())[jj] == h@[k + jj]);
            }
        }
        if k == last {
            break;
        }
        k = k + 1;
    }
    proof {
        assert forall|kk: int| !occurs_at(hay@, needle@, kk) by {
            if 0 <= kk && kk + needle@.len() <= hay@.len() {
                assert(kk <= last);
            }
        }
    }
    false
}



// ---------------------------------------------------------------------------
// Laws of the text order and of decimal numerals.
// ---------------------------------------------------------------------------

/// Texts are ordered by their first differing character, characters by code
/// point: after a common part, the text with the smaller character there
/// comes first, whatever follows.
pub proof fn law_text_lt_first_difference(
    common: Seq<char>,
    x: char,
    y: char,
    a: Seq<char>,
    b: Seq<char>,
)
    requires
        x != y,
    ensures
        text_lt(common + seq![x] + a, common + seq![y] + b) == (x < y),
    decreases common.len(),
{
    let l = common + seq![x] + a;
    let r = common + seq![y] + b;
    if common.len() == 0 {
        assert(l[0] == x);
        assert(r[0] == y);
    } else {
        assert(l[0] == common[0]);
        assert(r[0] == common[0]);
        assert(l.drop_first() =~= common.drop_first() + seq![x] + a);
        assert(r.drop_first() =~= common.drop_first() + seq![y] + b);
        law_text_lt_first_difference(common.drop_first(), x, y, a, b);
    }
}

/// A proper prefix comes before every longer text that starts with it.
pub proof fn law_text_lt_proper_prefix(common: Seq<char>, c: char, rest: Seq<char>)
    ensures
        text_lt(common, common + seq![c] + rest),
        !text_lt(common + seq![c] + rest, common),
    decreases common.len(),
{
    let r = common + seq![c] + rest;
    if common.len() > 0 {
        assert(r[0] == common[0]);
        assert(r.drop_first() =~= common.drop_first() + seq![c] + rest);
        law_text_lt_proper_prefix(common.drop_first(), c, rest);
    }
}

/// The character `c` is a decimal digit.
pub open spec fn is_digit(c: char) -> bool {
    '0' <= c && c <= '9'
}

/// The number a decimal digit stands for.
pub open spec fn digit_value(c: char) -> int {
    (c as int) - ('0' as int)
}

/// The number that a string of decimal digits denotes, read most
/// significant digit first.
pub open spec fn numeral_value(s: Seq<char>) -> int
    decreases s.len(),
{
    if s.len() == 0 {
        0
    } else {
        numeral_value(s.drop_last()) * 10 + digit_value(s.last())
    }
}

/// A numeral as written: at least one digit, only digits, and no leading
/// zero unless the numeral is `0` itself.
pub open spec fn is_plain_numeral(s: Seq<char>) -> bool {
    &&& s.len() > 0
    &&& forall|i: int| 0 <= i < s.len() ==> is_digit(#[trigger] s[i])
    &&& s.len() > 1 ==> s[0] != '0'
}

proof fn lemma_digit_char(d: nat)
    requires
        d < 10,
    ensures
        is_digit(digit_char(d)),
        digit_value(digit_char(d)) == d,
        (digit_char(d) == '0') == (d == 0),
{
    let t = seq!['0', '1', '2', '3', '4', '5', '6', '7', '8', '9'];
    assert(t[0] == '0' && t[1] == '1' && t[2] == '2' && t[3] == '3' && t[4] == '4');
    assert(t[5] == '5' && t[6] == '6' && t[7] == '7' && t[8] == '8' && t[9] == '9');
    assert(('0' as int) == 48 && ('1' as int) == 49 && ('2' as int) == 50 && ('3' as int) == 51);
    assert(('4' as int) == 52 && ('5' as int) == 53 && ('6' as int) == 54 && ('7' as int) == 55);
    assert(('8' as int) == 56 && ('9' as int) == 57);
}

/// The decimal numeral of `n` is a plain numeral that denotes `n`: reading
/// it back as base-10 digits gives `n`, and it has no leading zero.
pub proof fn law_decimal_denotes(n: nat)
    ensures
        is_plain_numeral(decimal(n)),
        numeral_value(decimal(n)) == n,
        n > 0 ==> decimal(n)[0] != '0',
    decreases n,
{
    if n < 10 {
        lemma_digit_char(n);
        let s = decimal(n);
        assert(s == seq![digit_char(n)]);
        assert(s.drop_last() =~= Seq::<char>::empty());
        assert(numeral_value(s.drop_last()) == 0);
    } else {
        let q = n / 10;
        let d = n % 10;
        law_decimal_denotes(q);
        lemma_digit_char(d);
        let s = decimal(n);
        let front = decimal(q);
        assert(s == front.push(digit_char(d)));
        assert(s.drop_last() =~= front);
        assert(s.last() == digit_char(d));
        assert(n == q * 10 + d);
        assert forall|i: int| 0 <= i < s.len() implies is_digit(#[trigger] s[i]) by {
            if i < front.len() {
                assert(s[i] == front[i]);
            }
        }
        assert(s[0] == front[0]);
    }
}

/// How two texts are ordered by `text_lt`.
#[derive(Clone, Copy, Debug, PartialEq, Eq, Structural)]
pub enum TextOrder {
    Less,
    Same,
    Greater,
}

/// No text comes before itself.
pub proof fn lemma_text_lt_irreflexive(a: Seq<char>)
    ensures
        !text_lt(a, a),
    decreases a.len(),
{
    if a.len() > 0 {
        lemma_text_lt_irreflexive(a.drop_first());
    }
}

/// Of two different texts exactly one comes first.
pub proof fn lemma_text_lt_total(a: Seq<char>, b: Seq<char>)
    ensures
        a != b ==> (text_lt(a, b) || text_lt(b, a)),
        !(text_lt(a, b) && text_lt(b, a)),
    decreases a.len(),
{
    if a.len() > 0 && b.len() > 0 && a[0] == b[0] {
        lemma_text_lt_total(a.drop_first(), b.drop_first());
        if a != b {
            assert(a =~= seq![a[0]] + a.drop_first());
            assert(b =~= seq![b[0]] + b.drop_first());
        }
    } else if a.len() == 0 && b.len() == 0 {
        assert(a =~= b);
    }
}

/// `text_lt` is transitive.
pub proof fn lemma_text_lt_transitive(a: Seq<char>, b: Seq<char>, c: Seq<char>)
    requires
        text_lt(a, b),
        text_lt(b, c),
    ensures
        text_lt(a, c),
    decreases a.len(),
{
    if a.len() > 0 && a[0] == b[0] && b[0] == c[0] {
        lemma_text_lt_transitive(a.drop_first(), b.drop_first(), c.drop_first());
    }
}

/// Compares two texts by `text_lt`.
pub fn compare_text(a: &Vec<char>, b: &Vec<char>) -> (r: TextOrder)
    ensures
        (r == TextOrder::Less) == text_lt(a@, b@),
        (r == TextOrder::Same) == (a@ == b@),
        (r == TextOrder::Greater) == text_lt(b@, a@),
{
    proof {
        lemma_text_lt_total(a@, b@);
        lemma_text_lt_irreflexive(a@);
    }
    let mut i: usize = 0;
    proof {
        assert(a@.skip(0) =~= a@);
        assert(b@.skip(0) =~= b@);
    }
    while i < a.len() && i < b.len() && a[i] == b[i]
        invariant
            i <= a@.len(),
            i <= b@.len(),
            a@.subrange(0, i as int) == b@.subrange(0, i as int),
            text_lt(a@, b@) == text_lt(a@.skip(i as int), b@.skip(i as int)),
            text_lt(b@, a@) == text_lt(b@.skip(i as int), a@.skip(i as int)),
        decreases a@.len() - i,
    {
        proof {
            assert(a@.skip(i as int).drop_first() =~= a@.skip(i + 1));
            assert(b@.skip(i as int).drop_first() =~= b@.skip(i + 1));
            assert(a@.subrange(0, i + 1) =~= a@.subrange(0, i as int).push(a@[i as int]));
            assert(b@.subrange(0, i + 1) =~= b@.subrange(0, i as int).push(b@[i as int]));
        }
        i = i + 1;
    }
    if i == a.len() && i == b.len() {
        proof {
            assert(a@ =~= a@.subrange(0, i as int));
            assert(b@ =~= b@.subrange(0, i as int));
        }
        TextOrder::Same
    } else {
        proof {
            if a@ == b@ {
                if i < a@.len() {
                    assert(a@[i as int] == b@[i as int]);
                }
            }
        }
        if i == a.len() {
            TextOrder::Less
        } else if i == b.len() {
            TextOrder::Greater
        } else if a[i] < b[i] {
            TextOrder::Less
        } else {
            TextOrder::Greater
        }
    }
}

/// The character of the decimal digit `d`.
fn digit_text(d: u32) -> (r: &'static str)
    requires
        d < 10,
    ensures
        r@ == seq![digit_char(d as nat)],
{
    proof {
        reveal_strlit("0");
        reveal_strlit("1");
        reveal_strlit("2");
        reveal_strlit("3");
        reveal_strlit("4");
        reveal_strlit("5");
        reveal_strlit("6");
        reveal_strlit("7");
        reveal_strlit("8");
        reveal_strlit("9");
    }
    let r = if d == 0 {
        "0"
    } else if d == 1 {
        "1"
    } else if d == 2 {
        "2"
    } else if d == 3 {
        "3"
    } else if d == 4 {
        "4"
    } else if d == 5 {
        "5"
    } else if d == 6 {
        "6"
    } else if d == 7 {
        "7"
    } else if d == 8 {
        "8"
    } else {
        "9"
    };
    assert(r@ =~= seq![digit_char(d as nat)]);
    r
}

/// The decimal numeral of `n`, as `n.to_string()` writes it.
pub fn decimal_text(n: u32) -> (s: String)
    ensures
        s@ == decimal(n as nat),
{
    // digits from the least significant one
    let mut digits: Vec<u32> = Vec::new();
    let mut m: u32 = n;
    let ghost mut rest: Seq<char> = Seq::empty();
    loop
        invariant_except_break
            decimal(n as nat) == decimal(m as nat) + rest,
        invariant
            forall|i: int| 0 <= i < digits@.len() ==> #[trigger] digits@[i] < 10,
            rest.len() == digits@.len(),
            forall|i: int|
                0 <= i < digits@.len() ==> rest[rest.len() - 1 - i] == digit_char(
                    #[trigger] digits@[i] as nat,
                ),
        ensures
            decimal(n as nat) == rest,
            forall|i: int| 0 <= i < digits@.len() ==> #[trigger] digits@[i] < 10,
            rest.len() == digits@.len(),
            forall|i: int|
                0 <= i < digits@.len() ==> rest[rest.len() - 1 - i] == digit_char(
                    #[trigger] digits@[i] as nat,
                ),
        decreases m,
    {
        if m < 10 {
            digits.push(m);
            proof {
                let r0 = rest;
                rest = seq![digit_char(m as nat)] + r0;
                assert(decimal(n as nat) =~= rest);
                assert forall|i: int| 0 <= i < digits@.len() implies rest[rest.len() - 1 - i]
                    == digit_char(#[trigger] digits@[i] as nat) by {
                    if i < digits@.len() - 1 {
                        assert(rest[rest.len() - 1 - i] == r0[r0.len() - 1 - i]);
                    }
                }
            }
            break;
        }
        let d = m % 10;
        proof {
            let r0 = rest;
            rest = seq![digit_char(d as nat)] + r0;
            assert(decimal(m as nat) == decimal((m / 10) as nat).push(digit_char(d as nat)));
            assert(decimal(n as nat) =~= decimal((m / 10) as nat) + rest);
        }
        digits.push(d);
        proof {
            assert forall|i: int| 0 <= i < digits@.len() implies rest[rest.len() - 1 - i]
                == digit_char(#[trigger] digits@[i] as nat) by {
                if i < digits@.len() - 1 {
                    assert(rest[rest.len() - 1 - i] == rest.drop_first()[rest.len() - 2 - i]);
                }
            }
        }
        m = m / 10;
    }
    // `rest` now is the whole numeral, most significant digit first
    let mut s = String::new();
    let mut i: usize = digits.len();
    while i > 0
        invariant
            i <= digits@.len(),
            rest.len() == digits@.len(),
            decimal(n as nat) == rest,
            forall|k: int| 0 <= k < digits@.len() ==> #[trigger] digits@[k] < 10,
            forall|k: int|
                0 <= k < digits@.len() ==> rest[rest.len() - 1 - k] == digit_char(
                    #[trigger] digits@[k] as nat,
                ),
            s@ == rest.subrange(0, digits@.len() - i),
        decreases i,
    {
        i = i - 1;
        let t = digit_text(digits[i]);
        s.append(t);
        assert(s@ =~= rest.subrange(0, digits@.len() - i));
    }
    assert(s@ =~= rest);
    s
}

} // verus!
