//! Text as sequences of characters: comparison, scanning and decimal output.

use vstd::prelude::*;
use vstd::utf8::*;

verus! {

/// Where one value stands relative to another in an ascending order.
#[derive(Debug, Clone, Copy, PartialEq, Eq, Structural)]
pub enum Rank {
    Before,
    Same,
    After,
}

/// The strict lexicographic order on byte sequences.
pub open spec fn bytes_before(a: Seq<u8>, b: Seq<u8>) -> bool
    decreases a.len(),
{
    if b.len() == 0 {
        false
    } else if a.len() == 0 {
        true
    } else if a[0] != b[0] {
        a[0] < b[0]
    } else {
        bytes_before(a.drop_first(), b.drop_first())
    }
}

/// The strict order of texts: lexicographic over their UTF-8 bytes.
pub open spec fn before(a: Seq<char>, b: Seq<char>) -> bool {
    bytes_before(encode_utf8(a), encode_utf8(b))
}

/// Where `a` stands relative to `b` in the order of texts.
pub open spec fn text_rank(a: Seq<char>, b: Seq<char>) -> Rank {
    if a == b {
        Rank::Same
    } else if before(a, b) {
        Rank::Before
    } else {
        Rank::After
    }
}

/// The position of the first byte in which two sequences differ decides.
proof fn lemma_bytes_before_at(a: Seq<u8>, b: Seq<u8>, k: int)
    requires
        0 <= k <= a.len(),
        k <= b.len(),
        forall|i: int| 0 <= i < k ==> a[i] == b[i],
        k < a.len() && k < b.len() ==> a[k] != b[k],
    ensures
        bytes_before(a, b) == (k < b.len() && (k == a.len() || a[k] < b[k])),
    decreases k,
{
    if k > 0 {
        assert forall|i: int| 0 <= i < k - 1 implies a.drop_first()[i] == b.drop_first()[i] by {
            assert(a[i + 1] == b[i + 1]);
        }
        lemma_bytes_before_at(a.drop_first(), b.drop_first(), k - 1);
    }
}

proof fn lemma_bytes_before_irreflexive(a: Seq<u8>)
    ensures
        !bytes_before(a, a),
    decreases a.len(),
{
    if a.len() > 0 {
        lemma_bytes_before_irreflexive(a.drop_first());
    }
}

proof fn lemma_bytes_before_transitive(a: Seq<u8>, b: Seq<u8>, c: Seq<u8>)
    requires
        bytes_before(a, b),
        bytes_before(b, c),
    ensures
        bytes_before(a, c),
    decreases a.len(),
{
    if a.len() > 0 && a[0] == b[0] && b[0] == c[0] {
        lemma_bytes_before_transitive(a.drop_first(), b.drop_first(), c.drop_first());
    }
}

proof fn lemma_bytes_before_total(a: Seq<u8>, b: Seq<u8>)
    requires
        a != b,
    ensures
        bytes_before(a, b) || bytes_before(b, a),
    decreases a.len(),
{
    if a.len() > 0 && b.len() > 0 && a[0] == b[0] {
        if a.drop_first() == b.drop_first() {
            assert(a =~= seq![a[0]] + a.drop_first());
            assert(b =~= seq![b[0]] + b.drop_first());
            assert(false);
        }
        lemma_bytes_before_total(a.drop_first(), b.drop_first());
    } else if a.len() == 0 && b.len() == 0 {
        assert(a =~= b);
    }
}

/// Two texts are equal exactly when their UTF-8 bytes are.
pub proof fn lemma_encoding_injective(a: Seq<char>, b: Seq<char>)
    ensures
        (encode_utf8(a) == encode_utf8(b)) == (a == b),
{
    encode_utf8_decode_utf8(a);
    encode_utf8_decode_utf8(b);
}

/// No text stands before itself.
pub broadcast proof fn lemma_before_irreflexive(a: Seq<char>)
    ensures
        !(#[trigger] before(a, a)),
{
    lemma_bytes_before_irreflexive(encode_utf8(a));
}

/// The order of texts is transitive.
pub broadcast proof fn lemma_before_transitive(a: Seq<char>, b: Seq<char>, c: Seq<char>)
    requires
        #[trigger] before(a, b),
        #[trigger] before(b, c),
    ensures
        before(a, c),
{
    lemma_bytes_before_transitive(encode_utf8(a), encode_utf8(b), encode_utf8(c));
}

/// Of two different texts one stands before the other.
pub proof fn lemma_before_total(a: Seq<char>, b: Seq<char>)
    requires
        a != b,
    ensures
        before(a, b) || before(b, a),
{
    lemma_encoding_injective(a, b);
    lemma_bytes_before_total(encode_utf8(a), encode_utf8(b));
}

/// The order of texts is strict: two texts do not both stand before the other.
pub proof fn lemma_before_asymmetric(a: Seq<char>, b: Seq<char>)
    requires
        before(a, b),
    ensures
        a != b,
        !before(b, a),
{
    lemma_before_irreflexive(a);
    if before(b, a) {
        lemma_before_transitive(a, b, a);
    }
}

/// Whether two texts hold the same characters.
pub fn same_text(a: &str, b: &str) -> (r: bool)
    ensures
        r == (a@ == b@),
{
    compare(a, b) == Rank::Same
}

/// Where `a` stands relative to `b`.
pub fn compare(a: &str, b: &str) -> (r: Rank)
    ensures
        r == text_rank(a@, b@),
{
    let left = a.as_bytes();
    let right = b.as_bytes();
    proof {
        lemma_encoding_injective(a@, b@);
    }
    let mut i: usize = 0;
    while i < left.len() && i < right.len() && left[i] == right[i]
        invariant
            i <= left.len(),
            i <= right.len(),
            forall|j: int| 0 <= j < i ==> left@[j] == right@[j],
        decreases left.len() - i,
    {
        i = i + 1;
    }
    proof {
        lemma_bytes_before_at(left@, right@, i as int);
    }
    if i < left.len() && i < right.len() {
        assert(left@ != right@);
        if left[i] < right[i] {
            Rank::Before
        } else {
            Rank::After
        }
    } else if i < right.len() {
        assert(left@.len() != right@.len());
        Rank::Before
    } else if i < left.len() {
        assert(left@.len() != right@.len());
        Rank::After
    } else {
        assert(left@ =~= right@);
        Rank::Same
    }
}

/// `String::push` puts one character at the end.
pub assume_specification[ String::push ](s: &mut String, c: char)
    ensures
        final(s)@ == old(s)@.push(c),
;

/// The characters of a text.
pub fn chars_of(s: &str) -> (r: Vec<char>)
    ensures
        r@ == s@,
{
    let mut out: Vec<char> = Vec::new();
    for c in it: s.chars()
        invariant
            it.seq() == s@,
            out@ == s@.take(it.index() as int),
    {
        assert(s@.take(it.index() as int).push(c) =~= s@.take(it.index() as int + 1));
        out.push(c);
    }
    assert(s@.take(s@.len() as int) =~= s@);
    out
}

/// The text made of the characters from `from` up to `to`.
pub fn text_of(chars: &Vec<char>, from: usize, to: usize) -> (r: String)
    requires
        from <= to <= chars.len(),
    ensures
        r@ == chars@.subrange(from as int, to as int),
{
    let mut out = String::new();
    let mut i: usize = from;
    while i < to
        invariant
            from <= i <= to <= chars.len(),
            out@ == chars@.subrange(from as int, i as int),
        decreases to - i,
    {
        assert(chars@.subrange(from as int, i as int).push(chars@[i as int]) =~= chars@.subrange(from as int, i + 1));
        out.push(chars[i]);
        i = i + 1;
    }
    out
}

/// Whether `s` begins with `prefix`.
pub fn starts_with(s: &str, prefix: &str) -> (r: bool)
    ensures
        r == prefix@.is_prefix_of(s@),
{
    let whole = chars_of(s);
    let head = chars_of(prefix);
    chars_start_with(&whole, 0, &head)
}

/// What follows `prefix` in `s`, if `s` begins with it.
pub fn strip(s: &str, prefix: &str) -> (r: Option<String>)
    ensures
        match r {
            Some(rest) => prefix@.is_prefix_of(s@) && rest@ == s@.skip(prefix@.len() as int),
            None => !prefix@.is_prefix_of(s@),
        },
{
    let whole = chars_of(s);
    let head = chars_of(prefix);
    assert(s@.skip(0) =~= s@);
    if chars_start_with(&whole, 0, &head) {
        assert(s@.skip(head@.len() as int) =~= s@.subrange(head@.len() as int, s@.len() as int));
        Some(text_of(&whole, head.len(), whole.len()))
    } else {
        None
    }
}

/// Whether the characters of `needle` stand in `chars` at `at`.
pub fn chars_start_with(chars: &Vec<char>, at: usize, needle: &Vec<char>) -> (r: bool)
    requires
        at <= chars.len(),
    ensures
        r == needle@.is_prefix_of(chars@.skip(at as int)),
{
    if needle.len() > chars.len() - at {
        return false;
    }
    let mut i: usize = 0;
    while i < needle.len()
        invariant
            i <= needle.len() <= chars.len() - at,
            forall|j: int| 0 <= j < i ==> needle@[j] == chars@[at + j],
        decreases needle.len() - i,
    {
        if needle[i] != chars[at + i] {
            assert(needle@[i as int] != chars@.skip(at as int).subrange(0, needle@.len() as int)[i as int]);
            return false;
        }
        i = i + 1;
    }
    assert(needle@ =~= chars@.skip(at as int).subrange(0, needle@.len() as int));
    true
}

/// Whether `s` ends with `suffix`.
pub fn ends_with(s: &str, suffix: &str) -> (r: bool)
    ensures
        r == suffix@.is_suffix_of(s@),
{
    let whole = chars_of(s);
    let tail = chars_of(suffix);
    if tail.len() > whole.len() {
        return false;
    }
    let at: usize = whole.len() - tail.len();
    let mut i: usize = 0;
    while i < tail.len()
        invariant
            whole@ == s@,
            tail@ == suffix@,
            i <= tail.len() <= whole.len(),
            at == whole.len() - tail.len(),
            forall|j: int| 0 <= j < i ==> tail@[j] == whole@[at + j],
        decreases tail.len() - i,
    {
        if tail[i] != whole[at + i] {
            assert(tail@[i as int] != whole@.subrange(whole@.len() - tail@.len(), whole@.len() as int)[i as int]);
            return false;
        }
        i = i + 1;
    }
    assert(tail@ =~= whole@.subrange(whole@.len() - tail@.len(), whole@.len() as int));
    true
}

/// The decimal numeral of a number.
pub open spec fn decimal(n: nat) -> Seq<char>
    decreases n,
{
    if n < 10 {
        seq![digit(n)]
    } else {
        decimal(n / 10).push(digit(n % 10))
    }
}

/// The character of one decimal digit.
pub open spec fn digit(n: nat) -> char {
    (('0' as u32) + n) as char
}

/// A numeral is made of digits, and stands for one number only.
pub proof fn lemma_decimal(n: nat)
    ensures
        decimal(n).len() > 0,
        forall|i: int| 0 <= i < decimal(n).len() ==> '0' <= #[trigger] decimal(n)[i] <= '9',
        forall|m: nat| #[trigger] decimal(m) == decimal(n) ==> m == n,
    decreases n,
{
    assert(forall|k: nat| k < 10 ==> '0' <= #[trigger] digit(k) <= '9');
    if n >= 10 {
        lemma_decimal(n / 10);
        let head = decimal(n / 10);
        assert(decimal(n) == head.push(digit(n % 10)));
        assert forall|i: int| 0 <= i < decimal(n).len() implies '0' <= #[trigger] decimal(n)[i] <= '9' by {
            if i < head.len() {
                assert(decimal(n)[i] == head[i]);
            }
        }
    }
    assert forall|m: nat| #[trigger] decimal(m) == decimal(n) implies m == n by {
        lemma_decimal_len(m);
        lemma_decimal_len(n);
        if n >= 10 {
            let x = decimal(m / 10).push(digit(m % 10));
            let y = decimal(n / 10).push(digit(n % 10));
            assert(x.drop_last() =~= decimal(m / 10));
            assert(y.drop_last() =~= decimal(n / 10));
            assert(x.last() == y.last());
            assert(m / 10 == n / 10);
            assert(m % 10 == n % 10);
        } else {
            assert(seq![digit(n)][0] == digit(n));
            assert(seq![digit(m)][0] == digit(m));
        }
    }
}

proof fn lemma_decimal_len(n: nat)
    ensures
        decimal(n).len() > 0,
        decimal(n).len() == 1 <==> n < 10,
    decreases n,
{
    if n >= 10 {
        lemma_decimal_len(n / 10);
    }
}

/// Two texts that end in the same way behind the last of a character are the
/// same on both sides of it.
pub proof fn lemma_last_split(a: Seq<char>, b: Seq<char>, x: Seq<char>, y: Seq<char>, c: char)
    requires
        a + seq![c] + b == x + seq![c] + y,
        !b.contains(c),
        !y.contains(c),
    ensures
        a == x,
        b == y,
{
    let left = a + seq![c] + b;
    let right = x + seq![c] + y;
    assert(left.len() == a.len() + 1 + b.len() && right.len() == x.len() + 1 + y.len());
    if a.len() < x.len() {
        assert(right[x.len() as int] == c);
        assert(left[x.len() as int] == b[x.len() - a.len() - 1]);
        assert(b.contains(b[x.len() - a.len() - 1]));
    } else if x.len() < a.len() {
        assert(left[a.len() as int] == c);
        assert(right[a.len() as int] == y[a.len() - x.len() - 1]);
        assert(y.contains(y[a.len() - x.len() - 1]));
    }
    assert(a.len() == x.len());
    assert(left.take(a.len() as int) =~= a);
    assert(right.take(x.len() as int) =~= x);
    assert(left.skip(a.len() as int + 1) =~= b);
    assert(right.skip(x.len() as int + 1) =~= y);
}

/// Two texts that begin in the same way before the first of a character are the
/// same on both sides of it.
pub proof fn lemma_first_split(a: Seq<char>, b: Seq<char>, x: Seq<char>, y: Seq<char>, c: char)
    requires
        a + seq![c] + b == x + seq![c] + y,
        !a.contains(c),
        !x.contains(c),
    ensures
        a == x,
        b == y,
{
    let left = a + seq![c] + b;
    let right = x + seq![c] + y;
    assert(left.len() == a.len() + 1 + b.len() && right.len() == x.len() + 1 + y.len());
    if a.len() < x.len() {
        assert(left[a.len() as int] == c);
        assert(right[a.len() as int] == x[a.len() as int]);
        assert(x.contains(x[a.len() as int]));
    } else if x.len() < a.len() {
        assert(right[x.len() as int] == c);
        assert(left[x.len() as int] == a[x.len() as int]);
        assert(a.contains(a[x.len() as int]));
    }
    assert(a.len() == x.len());
    assert(left.take(a.len() as int) =~= a);
    assert(right.take(x.len() as int) =~= x);
    assert(left.skip(a.len() as int + 1) =~= b);
    assert(right.skip(x.len() as int + 1) =~= y);
}

/// The character of one decimal digit.
fn digit_char(n: u64) -> (r: char)
    requires
        n < 10,
    ensures
        r == digit(n as nat),
{
    match n {
        0 => '0',
        1 => '1',
        2 => '2',
        3 => '3',
        4 => '4',
        5 => '5',
        6 => '6',
        7 => '7',
        8 => '8',
        _ => '9',
    }
}

/// Write the decimal numeral of `n` at the end of `out`.
pub fn push_number(out: &mut String, n: u64)
    ensures
        final(out)@ == old(out)@ + decimal(n as nat),
    decreases n,
{
    if n >= 10 {
        push_number(out, n / 10);
    }
    assert(decimal(n as nat) == if n < 10 { seq![digit(n as nat)] } else { decimal(n as nat / 10).push(digit(n as nat % 10)) });
    let ghost mid = out@;
    out.push(digit_char(n % 10));
    proof {
        if n < 10 {
            assert(out@ =~= old(out)@ + decimal(n as nat));
        } else {
            assert(mid == old(out)@ + decimal(n as nat / 10));
            assert(out@ =~= old(out)@ + decimal(n as nat));
        }
    }
}

/// The decimal numeral of `n`.
pub fn number_text(n: u64) -> (r: String)
    ensures
        r@ == decimal(n as nat),
{
    let mut out = String::new();
    push_number(&mut out, n);
    assert(Seq::<char>::empty() + decimal(n as nat) =~= decimal(n as nat));
    out
}

/// The views of a sequence of texts.
pub open spec fn texts(v: Seq<String>) -> Seq<Seq<char>> {
    v.map_values(|s: String| s@)
}

/// The view of an optional text.
pub open spec fn text_option(v: Option<String>) -> Option<Seq<char>> {
    match v {
        Some(s) => Some(s@),
        None => None,
    }
}

/// Two texts, one behind the other.
pub fn join2(a: &str, b: &str) -> (r: String)
    ensures
        r@ == a@ + b@,
{
    let mut out = a.to_owned();
    out.append(b);
    out
}

/// Three texts, one behind the other.
pub fn join3(a: &str, b: &str, c: &str) -> (r: String)
    ensures
        r@ == a@ + b@ + c@,
{
    let mut out = a.to_owned();
    out.append(b);
    out.append(c);
    out
}

/// Four texts, one behind the other.
pub fn join4(a: &str, b: &str, c: &str, d: &str) -> (r: String)
    ensures
        r@ == a@ + b@ + c@ + d@,
{
    let mut out = a.to_owned();
    out.append(b);
    out.append(c);
    out.append(d);
    out
}

/// How many leading elements satisfy a condition.
pub open spec fn span<T>(s: Seq<T>, keep: spec_fn(T) -> bool) -> nat
    decreases s.len(),
{
    if s.len() > 0 && keep(s[0]) {
        span(s.drop_first(), keep) + 1
    } else {
        0
    }
}

/// The leading run ends where the condition first fails.
pub proof fn lemma_span<T>(s: Seq<T>, keep: spec_fn(T) -> bool, n: nat)
    requires
        n <= s.len(),
        forall|i: int| 0 <= i < n ==> keep(#[trigger] s[i]),
        n < s.len() ==> !keep(s[n as int]),
    ensures
        span(s, keep) == n,
    decreases n,
{
    if n > 0 {
        assert(keep(s[0]));
        assert forall|i: int| 0 <= i < n - 1 implies keep(#[trigger] s.drop_first()[i]) by {
            assert(keep(s[i + 1]));
        }
        lemma_span(s.drop_first(), keep, (n - 1) as nat);
    }
}

/// The leading run is a run, and it ends.
pub proof fn lemma_span_holds<T>(s: Seq<T>, keep: spec_fn(T) -> bool)
    ensures
        span(s, keep) <= s.len(),
        forall|i: int| 0 <= i < span(s, keep) ==> keep(#[trigger] s[i]),
        span(s, keep) < s.len() ==> !keep(s[span(s, keep) as int]),
    decreases s.len(),
{
    if s.len() > 0 && keep(s[0]) {
        let rest = s.drop_first();
        lemma_span_holds(rest, keep);
        assert forall|i: int| 0 <= i < span(s, keep) implies keep(#[trigger] s[i]) by {
            if i > 0 {
                assert(keep(rest[i - 1]));
            }
        }
    }
}

/// Whether a character is white space, by the Unicode property of that name.
pub open spec fn is_space(c: char) -> bool {
    let n = c as u32;
    ||| 0x9 <= n <= 0xd
    ||| n == 0x20
    ||| n == 0x85
    ||| n == 0xa0
    ||| n == 0x1680
    ||| 0x2000 <= n <= 0x200a
    ||| n == 0x2028
    ||| n == 0x2029
    ||| n == 0x202f
    ||| n == 0x205f
    ||| n == 0x3000
}

/// Whether a character is white space.
pub fn space(c: char) -> (r: bool)
    ensures
        r == is_space(c),
{
    let n: u32 = c as u32;
    (0x9 <= n && n <= 0xd) || n == 0x20 || n == 0x85 || n == 0xa0 || n == 0x1680 || (0x2000 <= n && n <= 0x200a) || n == 0x2028
        || n == 0x2029 || n == 0x202f || n == 0x205f || n == 0x3000
}

/// The maximal runs of characters that are not white space.
pub open spec fn words(s: Seq<char>) -> Seq<Seq<char>>
    decreases s.len(),
{
    if s.len() == 0 {
        Seq::empty()
    } else if is_space(s[0]) {
        words(s.drop_first())
    } else {
        let n = span(s, |c: char| !is_space(c));
        seq![s.take(n as int)] + if 0 < n <= s.len() {
            words(s.skip(n as int))
        } else {
            Seq::empty()
        }
    }
}

/// The words of a text.
pub fn words_of(s: &str) -> (r: Vec<String>)
    ensures
        texts(r@) == words(s@),
{
    let chars = chars_of(s);
    let n: usize = chars.len();
    let mut out: Vec<String> = Vec::new();
    let mut i: usize = 0;
    assert(s@.skip(0) =~= s@);
    assert(texts(out@) + words(s@.skip(0)) =~= words(s@));
    while i < n
        invariant
            chars@ == s@,
            n == chars.len(),
            i <= n,
            texts(out@) + words(s@.skip(i as int)) == words(s@),
        decreases n - i,
    {
        let ghost rest = s@.skip(i as int);
        if space(chars[i]) {
            assert(rest.drop_first() =~= s@.skip(i + 1));
            i = i + 1;
        } else {
            let start: usize = i;
            while i < n && !space(chars[i])
                invariant
                    chars@ == s@,
                    n == chars.len(),
                    start <= i <= n,
                    rest == s@.skip(start as int),
                    forall|k: int| 0 <= k < i - start ==> !is_space(#[trigger] rest[k]),
                    start < n && !is_space(s@[start as int]),
                decreases n - i,
            {
                assert(rest[i - start] == s@[i as int]);
                i = i + 1;
            }
            proof {
                let keep = |c: char| !is_space(c);
                assert forall|k: int| 0 <= k < i - start implies keep(#[trigger] rest[k]) by {
                    assert(!is_space(rest[k]));
                }
                if i < n {
                    assert(rest[i - start] == s@[i as int]);
                }
                lemma_span(rest, keep, (i - start) as nat);
                assert(rest[0] == s@[start as int]);
                assert(i > start) by {
                    if i == start {
                        assert(!keep(rest[0]));
                    }
                }
                assert(rest.take(i - start) =~= s@.subrange(start as int, i as int));
                assert(rest.skip(i - start) =~= s@.skip(i as int));
            }
            let ghost so_far = texts(out@);
            out.push(text_of(&chars, start, i));
            proof {
                assert(texts(out@) =~= so_far.push(s@.subrange(start as int, i as int)));
                assert(texts(out@) + words(s@.skip(i as int)) =~= so_far + words(rest));
            }
        }
    }
    assert(s@.skip(n as int).len() == 0);
    assert(texts(out@) =~= words(s@));
    out
}

/// The condition of being another character than `c`.
pub open spec fn other_than(c: char) -> spec_fn(char) -> bool {
    |d: char| d != c
}

/// The pieces of a text between the places where a separator stands.
pub open spec fn split_on(s: Seq<char>, separator: char) -> Seq<Seq<char>>
    decreases s.len(),
{
    let n = span(s, other_than(separator));
    if n < s.len() {
        seq![s.take(n as int)] + split_on(s.skip(n as int + 1), separator)
    } else {
        seq![s]
    }
}

/// Split a text at every place where a separator stands.
pub fn split_text(s: &str, separator: char) -> (r: Vec<String>)
    ensures
        texts(r@) == split_on(s@, separator),
        r.len() > 0,
{
    let chars = chars_of(s);
    let n: usize = chars.len();
    let ghost keep = other_than(separator);
    let mut out: Vec<String> = Vec::new();
    let mut start: usize = 0;
    let mut i: usize = 0;
    assert(s@.skip(0) =~= s@);
    assert(texts(out@) + split_on(s@.skip(0), separator) =~= split_on(s@, separator));
    while i < n
        invariant
            chars@ == s@,
            n == chars.len(),
            start <= i <= n,
            keep == other_than(separator),
            forall|k: int| start <= k < i ==> #[trigger] s@[k] != separator,
            texts(out@) + split_on(s@.skip(start as int), separator) == split_on(s@, separator),
        decreases n - i,
    {
        if chars[i] == separator {
            let ghost rest = s@.skip(start as int);
            proof {
                assert forall|k: int| 0 <= k < i - start implies keep(#[trigger] rest[k]) by {
                    assert(s@[start + k] != separator);
                }
                assert(rest[i - start] == s@[i as int]);
                lemma_span(rest, keep, (i - start) as nat);
                assert(rest.take(i - start) =~= s@.subrange(start as int, i as int));
                assert(rest.skip(i - start + 1) =~= s@.skip(i + 1));
            }
            let ghost so_far = texts(out@);
            out.push(text_of(&chars, start, i));
            proof {
                assert(texts(out@) =~= so_far.push(s@.subrange(start as int, i as int)));
                assert(texts(out@) + split_on(s@.skip(i + 1), separator) =~= so_far + split_on(rest, separator));
            }
            start = i + 1;
        }
        i = i + 1;
    }
    let ghost rest = s@.skip(start as int);
    proof {
        assert forall|k: int| 0 <= k < n - start implies keep(#[trigger] rest[k]) by {
            assert(s@[start + k] != separator);
        }
        lemma_span(rest, keep, (n - start) as nat);
        assert(rest =~= s@.subrange(start as int, n as int));
    }
    let ghost so_far = texts(out@);
    out.push(text_of(&chars, start, n));
    assert(texts(out@) =~= so_far + split_on(rest, separator));
    out
}

/// The lines of a text: the pieces that newlines end, without the newline and
/// a carriage return before it, and what follows the last newline unless that
/// is empty.
pub open spec fn lines(s: Seq<char>) -> Seq<Seq<char>>
    decreases s.len(),
{
    let n = span(s, other_than('\n'));
    if s.len() == 0 {
        Seq::empty()
    } else if n < s.len() {
        seq![without_return(s.take(n as int))] + lines(s.skip(n as int + 1))
    } else {
        seq![s]
    }
}

/// A text without the carriage return at its end.
pub open spec fn without_return(s: Seq<char>) -> Seq<char> {
    if s.len() > 0 && s.last() == '\r' {
        s.drop_last()
    } else {
        s
    }
}

/// The lines of a text.
pub fn lines_of(s: &str) -> (r: Vec<String>)
    ensures
        texts(r@) == lines(s@),
        r.len() <= s@.len(),
{
    let chars = chars_of(s);
    let n: usize = chars.len();
    let ghost keep = other_than('\n');
    let mut out: Vec<String> = Vec::new();
    let mut start: usize = 0;
    let mut i: usize = 0;
    assert(s@.skip(0) =~= s@);
    assert(texts(out@) + lines(s@.skip(0)) =~= lines(s@));
    while i < n
        invariant
            chars@ == s@,
            n == chars.len(),
            start <= i <= n,
            out.len() <= start,
            keep == other_than('\n'),
            forall|k: int| start <= k < i ==> #[trigger] s@[k] != '\n',
            texts(out@) + lines(s@.skip(start as int)) == lines(s@),
        decreases n - i,
    {
        if chars[i] == '\n' {
            let ghost rest = s@.skip(start as int);
            proof {
                assert forall|k: int| 0 <= k < i - start implies keep(#[trigger] rest[k]) by {
                    assert(s@[start + k] != '\n');
                }
                assert(rest[i - start] == s@[i as int]);
                lemma_span(rest, keep, (i - start) as nat);
                assert(rest.take(i - start) =~= s@.subrange(start as int, i as int));
                assert(rest.skip(i - start + 1) =~= s@.skip(i + 1));
            }
            let end: usize = if i > start && chars[i - 1] == '\r' {
                i - 1
            } else {
                i
            };
            assert(s@.subrange(start as int, end as int) =~= without_return(s@.subrange(start as int, i as int)));
            let ghost so_far = texts(out@);
            out.push(text_of(&chars, start, end));
            proof {
                assert(texts(out@) =~= so_far.push(s@.subrange(start as int, end as int)));
                assert(texts(out@) + lines(s@.skip(i + 1)) =~= so_far + lines(rest));
            }
            start = i + 1;
        }
        i = i + 1;
    }
    let ghost rest = s@.skip(start as int);
    proof {
        assert forall|k: int| 0 <= k < n - start implies keep(#[trigger] rest[k]) by {
            assert(s@[start + k] != '\n');
        }
        lemma_span(rest, keep, (n - start) as nat);
        assert(rest =~= s@.subrange(start as int, n as int));
    }
    let ghost so_far = texts(out@);
    if start < n {
        out.push(text_of(&chars, start, n));
    }
    assert(texts(out@) =~= so_far + lines(rest));
    out
}

/// Why a text is not the numeral of a number in range.
#[derive(Debug, Clone, Copy, PartialEq, Eq, Structural)]
pub enum NumberFault {
    Empty,
    InvalidDigit,
    TooLarge,
}

/// The sentence a faulty numeral is reported with.
pub open spec fn fault_text(fault: NumberFault) -> Seq<char> {
    match fault {
        NumberFault::Empty => "cannot parse integer from empty string"@,
        NumberFault::InvalidDigit => "invalid digit found in string"@,
        NumberFault::TooLarge => "number too large to fit in target type"@,
    }
}

impl NumberFault {
    /// The sentence this fault is reported with.
    pub fn to_text(self) -> (r: &'static str)
        ensures
            r@ == fault_text(self),
    {
        match self {
            NumberFault::Empty => "cannot parse integer from empty string",
            NumberFault::InvalidDigit => "invalid digit found in string",
            NumberFault::TooLarge => "number too large to fit in target type",
        }
    }
}

/// The number that decimal digits spell behind those already read; the first
/// character that is no digit, or that takes the number past `max`, decides.
pub open spec fn digits_value(s: Seq<char>, read: nat, max: nat) -> Result<nat, NumberFault>
    decreases s.len(),
{
    if s.len() == 0 {
        Ok(read)
    } else if !('0' <= s[0] <= '9') {
        Err(NumberFault::InvalidDigit)
    } else {
        let next = read * 10 + (s[0] as u32 - '0' as u32) as nat;
        if next > max {
            Err(NumberFault::TooLarge)
        } else {
            digits_value(s.drop_first(), next, max)
        }
    }
}

/// The number that a numeral spells: digits, behind an optional plus sign.
pub open spec fn numeral(s: Seq<char>, max: nat) -> Result<nat, NumberFault> {
    if s.len() == 0 {
        Err(NumberFault::Empty)
    } else if s == seq!['+'] {
        Err(NumberFault::InvalidDigit)
    } else if s[0] == '+' {
        digits_value(s.drop_first(), 0, max)
    } else {
        digits_value(s, 0, max)
    }
}

/// The number that a numeral spells.
pub fn parse_numeral(s: &str, max: u64) -> (r: Result<u64, NumberFault>)
    ensures
        match r {
            Ok(n) => numeral(s@, max as nat) == Ok::<nat, NumberFault>(n as nat) && n <= max,
            Err(fault) => numeral(s@, max as nat) == Err::<nat, NumberFault>(fault),
        },
{
    let chars = chars_of(s);
    if chars.len() == 0 {
        return Err(NumberFault::Empty);
    }
    let plus = chars[0] == '+';
    if plus && chars.len() == 1 {
        assert(s@ =~= seq!['+']);
        return Err(NumberFault::InvalidDigit);
    }
    assert(s@ != seq!['+']) by {
        if s@ == seq!['+'] {
            assert(s@[0] == '+');
        }
    }
    let mut i: usize = if plus {
        1
    } else {
        0
    };
    let mut value: u64 = 0;
    proof {
        assert(s@.skip(0) =~= s@);
        assert(s@.skip(1) =~= s@.drop_first());
    }
    while i < chars.len()
        invariant
            chars@ == s@,
            i <= chars.len(),
            value <= max,
            numeral(s@, max as nat) == digits_value(s@.skip(i as int), value as nat, max as nat),
        decreases chars.len() - i,
    {
        let c = chars[i];
        assert(s@.skip(i as int)[0] == c);
        if !('0' <= c && c <= '9') {
            return Err(NumberFault::InvalidDigit);
        }
        let ghost d = (c as u32 - '0' as u32) as nat;
        let unit: u64 = (c as u32 - '0' as u32) as u64;
        if value > (u64::MAX - unit) / 10 || value * 10 + unit > max {
            return Err(NumberFault::TooLarge);
        }
        assert(s@.skip(i as int).drop_first() =~= s@.skip(i + 1));
        value = value * 10 + unit;
        i = i + 1;
    }
    assert(s@.skip(chars.len() as int).len() == 0);
    Ok(value)
}

/// The form in which a text is quoted in a diagnostic.
pub uninterp spec fn quoted_form(s: Seq<char>) -> Seq<char>;

/// `<str as Debug>::fmt` writes a text in quotes with its special characters
/// escaped. Which characters are escaped, and how, is not stated: only that the
/// result depends on the text alone.
#[verifier::external_body]
pub(crate) fn quoted(s: &str) -> (r: String)
    ensures
        r@ == quoted_form(s@),
{
    format!("{:?}", s)
}

/// The sentence with which bytes are refused that are not UTF-8.
pub uninterp spec fn utf8_fault(bytes: Seq<u8>) -> Seq<char>;

/// `std::str::from_utf8` decodes bytes that are valid UTF-8 and refuses all
/// others. The sentence of the refusal depends on the bytes alone; its wording
/// is not stated.
#[verifier::external_body]
pub(crate) fn decode(bytes: &[u8]) -> (r: Result<String, String>)
    ensures
        match r {
            Ok(text) => valid_utf8(bytes@) && text@ == decode_utf8(bytes@),
            Err(fault) => !valid_utf8(bytes@) && fault@ == utf8_fault(bytes@),
        },
{
    match std::str::from_utf8(bytes) {
        Ok(text) => Ok(text.to_owned()),
        Err(error) => Err(error.to_string()),
    }
}

/// A sequence without the elements behind it that satisfy a condition.
pub open spec fn trim_end_by(s: Seq<char>, drop: spec_fn(char) -> bool) -> Seq<char>
    decreases s.len(),
{
    if s.len() > 0 && drop(s.last()) {
        trim_end_by(s.drop_last(), drop)
    } else {
        s
    }
}

/// A sequence without the elements at either end that satisfy a condition.
pub open spec fn trim_by(s: Seq<char>, drop: spec_fn(char) -> bool) -> Seq<char> {
    trim_end_by(s.skip(span(s, drop) as int), drop)
}

/// A text without the characters at either end that satisfy a condition.
pub fn trim_where<F: Fn(char) -> bool>(s: &str, test: F, Ghost(drop): Ghost<spec_fn(char) -> bool>) -> (r: String)
    requires
        forall|c: char| #[trigger] test.requires((c,)),
        forall|c: char, b: bool| #[trigger] test.ensures((c,), b) ==> b == drop(c),
    ensures
        r@ == trim_by(s@, drop),
{
    let chars = chars_of(s);
    let n: usize = chars.len();
    let mut from: usize = 0;
    while from < n && test(chars[from])
        invariant
            from <= n == chars.len(),
            chars@ == s@,
            forall|k: int| 0 <= k < from ==> drop(#[trigger] s@[k]),
            forall|c: char| #[trigger] test.requires((c,)),
            forall|c: char, b: bool| #[trigger] test.ensures((c,), b) ==> b == drop(c),
        ensures
            from < n ==> !drop(s@[from as int]),
        decreases n - from,
    {
        from = from + 1;
    }
    proof {
        lemma_span(s@, drop, from as nat);
    }
    let ghost rest = s@.skip(from as int);
    let mut to: usize = n;
    assert(s@.subrange(from as int, n as int) =~= rest);
    while to > from && test(chars[to - 1])
        invariant
            from <= to <= n == chars.len(),
            chars@ == s@,
            trim_end_by(s@.subrange(from as int, to as int), drop) == trim_end_by(rest, drop),
            forall|c: char| #[trigger] test.requires((c,)),
            forall|c: char, b: bool| #[trigger] test.ensures((c,), b) ==> b == drop(c),
        ensures
            to > from ==> !drop(s@[to - 1]),
        decreases to,
    {
        assert(s@.subrange(from as int, to as int).drop_last() =~= s@.subrange(from as int, to - 1));
        to = to - 1;
    }
    text_of(&chars, from, to)
}

/// The condition of being white space.
pub open spec fn spaces() -> spec_fn(char) -> bool {
    |c: char| is_space(c)
}

/// A text without the white space at either end.
pub fn trim(s: &str) -> (r: String)
    ensures
        r@ == trim_by(s@, spaces()),
{
    let test = |c: char| -> (b: bool)
        ensures
            b == is_space(c),
    {
        space(c)
    };
    trim_where(s, test, Ghost(spaces()))
}

/// The text between two byte offsets, where both are character boundaries.
pub open spec fn text_slice(s: Seq<char>, from: int, to: int) -> Option<Seq<char>> {
    let bytes = encode_utf8(s);
    if 0 <= from <= to <= bytes.len() && is_char_boundary(bytes, from) && is_char_boundary(bytes, to) {
        Some(decode_utf8(bytes.subrange(from, to)))
    } else {
        None
    }
}

/// The text between two byte offsets, where both are character boundaries.
pub fn slice<'a>(s: &'a str, from: usize, to: usize) -> (r: Option<&'a str>)
    ensures
        match r {
            Some(text) => text_slice(s@, from as int, to as int) == Some(text@),
            None => text_slice(s@, from as int, to as int) is None,
        },
{
    let ghost bytes = encode_utf8(s@);
    if from > to || !s.is_char_boundary(from) || !s.is_char_boundary(to) {
        return None;
    }
    proof {
        encode_utf8_valid_utf8(s@);
        valid_utf8_split(bytes, to as int);
        let head = bytes.subrange(0, to as int);
        if from < to {
            is_char_boundary_iff_not_is_continuation_byte(bytes, from as int);
            is_char_boundary_iff_not_is_continuation_byte(head, from as int);
            assert(head[from as int] == bytes[from as int]);
        } else {
            is_char_boundary_start_end_of_seq(head);
        }
    }
    let head = s.split_at(to).0;
    let tail = head.split_at(from).1;
    proof {
        assert(encode_utf8(tail@) =~= bytes.subrange(from as int, to as int));
        encode_utf8_decode_utf8(tail@);
    }
    Some(tail)
}

/// Whether a text stands somewhere in another.
pub open spec fn occurs_in(needle: Seq<char>, s: Seq<char>) -> bool {
    exists|i: int| 0 <= i <= s.len() && needle.is_prefix_of(#[trigger] s.skip(i))
}

/// Whether `needle` stands somewhere in `s`.
pub fn contains_text(s: &str, needle: &str) -> (r: bool)
    ensures
        r == occurs_in(needle@, s@),
{
    let chars = chars_of(s);
    let wanted = chars_of(needle);
    let mut i: usize = 0;
    loop
        invariant
            chars@ == s@,
            wanted@ == needle@,
            i <= chars.len(),
            forall|k: int| 0 <= k < i ==> !needle@.is_prefix_of(#[trigger] s@.skip(k)),
        decreases chars.len() - i,
    {
        if chars_start_with(&chars, i, &wanted) {
            assert(needle@.is_prefix_of(s@.skip(i as int)));
            return true;
        }
        if i == chars.len() {
            return false;
        }
        i = i + 1;
    }
}

/// How much of a text precedes the last place where a character stands; its
/// whole length where there is none.
pub open spec fn last_of(s: Seq<char>, c: char) -> nat
    decreases s.len(),
{
    if s.len() == 0 {
        0
    } else if s.last() == c {
        (s.len() - 1) as nat
    } else if last_of(s.drop_last(), c) == s.len() - 1 {
        s.len()
    } else {
        last_of(s.drop_last(), c)
    }
}

/// The last place is where the character stands with none behind it.
pub proof fn lemma_last_of(s: Seq<char>, c: char, at: nat)
    requires
        at <= s.len(),
        forall|k: int| at < k < s.len() ==> #[trigger] s[k] != c,
        at < s.len() ==> s[at as int] == c,
        at == s.len() ==> forall|k: int| 0 <= k < s.len() ==> #[trigger] s[k] != c,
    ensures
        last_of(s, c) == at,
    decreases s.len(),
{
    if s.len() > 0 {
        let shorter = s.drop_last();
        if at == s.len() {
            assert(s[s.len() - 1] != c);
            lemma_last_of(shorter, c, (at - 1) as nat);
        } else if at < s.len() - 1 {
            assert(s[s.len() - 1] != c);
            lemma_last_of(shorter, c, at);
        }
    }
}

/// The place where a character stands last, or the length.
pub fn find_last(chars: &Vec<char>, c: char) -> (r: usize)
    ensures
        r == last_of(chars@, c),
        r <= chars.len(),
{
    let mut at: usize = chars.len();
    while at > 0 && chars[at - 1] != c
        invariant
            at <= chars.len(),
            forall|k: int| at <= k < chars.len() ==> #[trigger] chars@[k] != c,
        decreases at,
    {
        at = at - 1;
    }
    if at == 0 {
        proof {
            lemma_last_of(chars@, c, chars@.len());
        }
        chars.len()
    } else {
        proof {
            lemma_last_of(chars@, c, (at - 1) as nat);
        }
        at - 1
    }
}

/// What follows the last place where a character stands, if there is one.
pub open spec fn behind_last(s: Seq<char>, c: char) -> Option<Seq<char>> {
    if last_of(s, c) < s.len() {
        Some(s.skip(last_of(s, c) as int + 1))
    } else {
        None
    }
}

/// What follows the last place where a character stands, if there is one.
pub fn after_last(s: &str, c: char) -> (r: Option<String>)
    ensures
        text_option(r) == behind_last(s@, c),
{
    let chars = chars_of(s);
    let at = find_last(&chars, c);
    if at < chars.len() {
        assert(s@.skip(at + 1) =~= s@.subrange(at + 1, s@.len() as int));
        Some(text_of(&chars, at + 1, chars.len()))
    } else {
        None
    }
}

/// What precedes the first place where a character stands; the whole text
/// where there is none.
pub open spec fn up_to(s: Seq<char>, c: char) -> Seq<char> {
    s.take(span(s, other_than(c)) as int)
}

/// The place where a character stands first, or the length.
pub fn find_first(chars: &Vec<char>, c: char) -> (r: usize)
    ensures
        r == span(chars@, other_than(c)),
        r <= chars.len(),
{
    let mut i: usize = 0;
    while i < chars.len() && chars[i] != c
        invariant
            i <= chars.len(),
            forall|k: int| 0 <= k < i ==> other_than(c)(#[trigger] chars@[k]),
        decreases chars.len() - i,
    {
        i = i + 1;
    }
    proof {
        lemma_span(chars@, other_than(c), i as nat);
    }
    i
}

/// What precedes the first place where a character stands.
pub fn before_first(s: &str, c: char) -> (r: String)
    ensures
        r@ == up_to(s@, c),
{
    let chars = chars_of(s);
    let at = find_first(&chars, c);
    assert(s@.take(at as int) =~= s@.subrange(0, at as int));
    text_of(&chars, 0, at)
}

/// Texts with a separator between each two.
pub open spec fn interposed(parts: Seq<Seq<char>>, separator: Seq<char>) -> Seq<char>
    decreases parts.len(),
{
    if parts.len() == 0 {
        Seq::empty()
    } else if parts.len() == 1 {
        parts[0]
    } else {
        interposed(parts.drop_last(), separator) + separator + parts.last()
    }
}

/// Join texts with a separator between each two.
pub fn join_all(parts: &Vec<String>, separator: &str) -> (r: String)
    ensures
        r@ == interposed(texts(parts@), separator@),
{
    let ghost names = texts(parts@);
    let mut out = String::new();
    let mut i: usize = 0;
    assert(out@ =~= interposed(names.take(0), separator@));
    while i < parts.len()
        invariant
            i <= parts.len(),
            names == texts(parts@),
            out@ == interposed(names.take(i as int), separator@),
        decreases parts.len() - i,
    {
        assert(names.take(i + 1).drop_last() =~= names.take(i as int));
        assert(names.take(i + 1).last() == parts@[i as int]@);
        if i > 0 {
            out.append(separator);
        } else {
            assert(out@ + parts@[0]@ =~= parts@[0]@);
            assert(names.take(1)[0] == parts@[0]@);
        }
        out.append(parts[i].as_str());
        i = i + 1;
    }
    assert(names.take(i as int) =~= names);
    out
}

} // verus!
