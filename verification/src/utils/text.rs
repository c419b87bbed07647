use vstd::prelude::*;
use vstd::utf8::{decode_utf8, valid_utf8};

verus! {

/// Calls `String::from_utf8`. Trusted: the standard library documents that it returns
/// `Ok` exactly when the bytes are valid UTF-8 and that the string then holds the
/// characters that the bytes encode; the contract says this over vstd's UTF-8 model.
#[verifier::external_body]
pub fn string_from_utf8(bytes: Vec<u8>) -> (s: Option<String>)
    ensures
        s is Some <==> valid_utf8(bytes@),
        s matches Some(s) ==> s@ == decode_utf8(bytes@),
{
    String::from_utf8(bytes).ok()
}

/// Whether two string slices hold the same characters.
pub fn str_eq(a: &str, b: &str) -> (r: bool)
    ensures
        r == (a@ == b@),
{
    a.to_owned() == b.to_owned()
}

/// Whether a character has the Unicode `White_Space` property, which `char::is_whitespace`
/// tests: U+0009 to U+000D, U+0020, U+0085, U+00A0, U+1680, U+2000 to U+200A, U+2028,
/// U+2029, U+202F, U+205F and U+3000.
pub open spec fn char_is_whitespace(c: char) -> bool {
    let u = c as int;
    ||| 0x9 <= u <= 0xd
    ||| u == 0x20
    ||| u == 0x85
    ||| u == 0xa0
    ||| u == 0x1680
    ||| 0x2000 <= u <= 0x200a
    ||| u == 0x2028
    ||| u == 0x2029
    ||| u == 0x202f
    ||| u == 0x205f
    ||| u == 0x3000
}

/// Whether a character has the Unicode `White_Space` property, as `char::is_whitespace`
/// tests it.
pub fn is_whitespace(c: char) -> (r: bool)
    ensures
        r == char_is_whitespace(c),
{
    let u = c as u32;
    (0x9 <= u && u <= 0xd) || u == 0x20 || u == 0x85 || u == 0xa0 || u == 0x1680 || (0x2000 <= u && u
        <= 0x200a) || u == 0x2028 || u == 0x2029 || u == 0x202f || u == 0x205f || u == 0x3000
}

/// Calls `str::chars` and collects the characters. Trusted: the standard library documents
/// that `chars` yields the characters of the string slice in order.
#[verifier::external_body]
pub fn chars_of(s: &str) -> (cs: Vec<char>)
    ensures
        cs@ == s@,
{
    s.chars().collect()
}

/// Collects characters into a `String` through its `FromIterator<char>` impl. Trusted: the
/// standard library documents that the string holds the characters in order.
#[verifier::external_body]
pub fn string_of(cs: &[char]) -> (s: String)
    ensures
        s@ == cs@,
{
    cs.iter().collect()
}

/// Whether `cs` starts with `p`.
pub open spec fn has_prefix(cs: Seq<char>, p: Seq<char>) -> bool {
    p.len() <= cs.len() && cs.take(p.len() as int) == p
}

/// Whether `cs` ends with `p`.
pub open spec fn has_suffix(cs: Seq<char>, p: Seq<char>) -> bool {
    p.len() <= cs.len() && cs.skip(cs.len() - p.len()) == p
}

/// Whether `cs` starts with the characters of `p`.
pub fn starts_with(cs: &[char], p: &str) -> (r: bool)
    ensures
        r == has_prefix(cs@, p@),
{
    let pc = chars_of(p);
    if pc.len() > cs.len() {
        return false;
    }
    let mut i: usize = 0;
    while i < pc.len()
        invariant
            pc@ == p@,
            pc@.len() <= cs@.len(),
            i <= pc@.len(),
            forall|j: int| 0 <= j < i ==> cs@[j] == pc@[j],
        decreases pc@.len() - i,
    {
        if cs[i] != pc[i] {
            assert(cs@.take(pc@.len() as int)[i as int] != p@[i as int]);
            return false;
        }
        i += 1;
    }
    assert(cs@.take(pc@.len() as int) =~= p@);
    true
}

/// Whether `cs` ends with the characters of `p`.
pub fn ends_with(cs: &[char], p: &str) -> (r: bool)
    ensures
        r == has_suffix(cs@, p@),
{
    let pc = chars_of(p);
    if pc.len() > cs.len() {
        return false;
    }
    let len = cs.len();
    let off = len - pc.len();
    let mut i: usize = 0;
    while i < pc.len()
        invariant
            pc@ == p@,
            len == cs@.len(),
            off + pc@.len() == len,
            i <= pc@.len(),
            forall|j: int| 0 <= j < i ==> cs@[off + j] == pc@[j],
        decreases pc@.len() - i,
    {
        if cs[off + i] != pc[i] {
            assert(cs@.skip(off as int)[i as int] != p@[i as int]);
            return false;
        }
        i += 1;
    }
    assert(cs@.skip(off as int) =~= p@);
    true
}

/// Whether `cs` holds the same characters as `p`.
pub fn chars_eq(cs: &[char], p: &str) -> (r: bool)
    ensures
        r == (cs@ == p@),
{
    let pc = chars_of(p);
    if pc.len() != cs.len() {
        return false;
    }
    let mut i: usize = 0;
    while i < pc.len()
        invariant
            pc@ == p@,
            pc@.len() == cs@.len(),
            i <= pc@.len(),
            forall|j: int| 0 <= j < i ==> cs@[j] == pc@[j],
        decreases pc@.len() - i,
    {
        if cs[i] != pc[i] {
            return false;
        }
        i += 1;
    }
    assert(cs@ =~= p@);
    true
}

/// Whether `c` occurs in `cs`.
pub fn contains_char(cs: &[char], c: char) -> (r: bool)
    ensures
        r == cs@.contains(c),
{
    let mut i: usize = 0;
    while i < cs.len()
        invariant
            i <= cs@.len(),
            forall|j: int| 0 <= j < i ==> cs@[j] != c,
        decreases cs@.len() - i,
    {
        if cs[i] == c {
            return true;
        }
        i += 1;
    }
    false
}

/// The number of occurrences of `c` in `cs`.
pub open spec fn count_char(cs: Seq<char>, c: char) -> nat
    decreases cs.len(),
{
    if cs.len() == 0 {
        0
    } else {
        count_char(cs.drop_last(), c) + if cs.last() == c {
            1nat
        } else {
            0nat
        }
    }
}

/// There are no more occurrences of a character than characters.
pub proof fn lemma_count_char_len(cs: Seq<char>, c: char)
    ensures
        count_char(cs, c) <= cs.len(),
    decreases cs.len(),
{
    if cs.len() > 0 {
        lemma_count_char_len(cs.drop_last(), c);
    }
}

/// The number of pieces that splitting `cs` at `c` gives: one more than the occurrences of `c`.
pub fn split_count(cs: &[char], c: char) -> (n: usize)
    requires
        cs@.len() < usize::MAX,
    ensures
        n == count_char(cs@, c) + 1,
{
    let mut n: usize = 1;
    let mut i: usize = 0;
    while i < cs.len()
        invariant
            i <= cs@.len(),
            n == count_char(cs@.take(i as int), c) + 1,
            n <= i + 1,
            cs@.len() < usize::MAX,
        decreases cs@.len() - i,
    {
        assert(cs@.take(i + 1).drop_last() =~= cs@.take(i as int));
        if cs[i] == c {
            n += 1;
        }
        i += 1;
    }
    assert(cs@.take(i as int) =~= cs@);
    n
}

/// The characters of `cs` before the first `c`: the first piece of splitting at `c`.
pub open spec fn prefix_before(cs: Seq<char>, c: char) -> Seq<char>
    decreases cs.len(),
{
    if cs.len() == 0 {
        cs
    } else if cs[0] == c {
        Seq::empty()
    } else {
        seq![cs[0]] + prefix_before(cs.drop_first(), c)
    }
}

/// The characters of `cs` after the last `c`: the last piece of splitting at `c`.
pub open spec fn suffix_after(cs: Seq<char>, c: char) -> Seq<char>
    decreases cs.len(),
{
    if cs.len() == 0 {
        cs
    } else if cs.last() == c {
        Seq::empty()
    } else {
        suffix_after(cs.drop_last(), c).push(cs.last())
    }
}

proof fn lemma_prefix_before(cs: Seq<char>, c: char, i: int)
    requires
        0 <= i <= cs.len(),
        i < cs.len() ==> cs[i] == c,
        forall|j: int| 0 <= j < i ==> cs[j] != c,
    ensures
        prefix_before(cs, c) == cs.take(i),
    decreases cs.len(),
{
    if cs.len() > 0 && i > 0 {
        lemma_prefix_before(cs.drop_first(), c, i - 1);
        assert(seq![cs[0]] + cs.drop_first().take(i - 1) =~= cs.take(i));
    } else if cs.len() > 0 {
        assert(cs.take(0) =~= Seq::<char>::empty());
    }
}

proof fn lemma_suffix_after(cs: Seq<char>, c: char, i: int)
    requires
        0 <= i <= cs.len(),
        i > 0 ==> cs[i - 1] == c,
        forall|j: int| i <= j < cs.len() ==> cs[j] != c,
    ensures
        suffix_after(cs, c) == cs.skip(i),
    decreases cs.len(),
{
    if cs.len() > 0 && i < cs.len() {
        lemma_suffix_after(cs.drop_last(), c, i);
        assert(cs.drop_last().skip(i).push(cs.last()) =~= cs.skip(i));
    } else if cs.len() > 0 {
        assert(cs.skip(i) =~= Seq::<char>::empty());
    }
}

/// The first piece of splitting `cs` at `c`.
pub fn before_first(cs: &[char], c: char) -> (r: Vec<char>)
    ensures
        r@ == prefix_before(cs@, c),
{
    let mut i: usize = 0;
    while i < cs.len() && cs[i] != c
        invariant
            i <= cs@.len(),
            forall|j: int| 0 <= j < i ==> cs@[j] != c,
        decreases cs@.len() - i,
    {
        i += 1;
    }
    proof {
        lemma_prefix_before(cs@, c, i as int);
    }
    let r = vstd::slice::slice_to_vec(vstd::slice::slice_subrange(cs, 0, i));
    assert(r@ =~= cs@.take(i as int));
    r
}

/// The last piece of splitting `cs` at `c`.
pub fn after_last(cs: &[char], c: char) -> (r: Vec<char>)
    ensures
        r@ == suffix_after(cs@, c),
{
    let mut i: usize = cs.len();
    while i > 0 && cs[i - 1] != c
        invariant
            i <= cs@.len(),
            forall|j: int| i <= j < cs@.len() ==> cs@[j] != c,
        decreases i,
    {
        i -= 1;
    }
    proof {
        lemma_suffix_after(cs@, c, i as int);
    }
    let r = vstd::slice::slice_to_vec(vstd::slice::slice_subrange(cs, i, cs.len()));
    assert(r@ =~= cs@.skip(i as int));
    r
}

/// `cs` without its leading whitespace.
pub open spec fn trim_start(cs: Seq<char>) -> Seq<char>
    decreases cs.len(),
{
    if cs.len() > 0 && char_is_whitespace(cs[0]) {
        trim_start(cs.drop_first())
    } else {
        cs
    }
}

/// `cs` without its trailing whitespace.
pub open spec fn trim_end(cs: Seq<char>) -> Seq<char>
    decreases cs.len(),
{
    if cs.len() > 0 && char_is_whitespace(cs.last()) {
        trim_end(cs.drop_last())
    } else {
        cs
    }
}

/// `cs` without its leading and trailing whitespace, as `str::trim` gives it.
pub open spec fn trimmed(cs: Seq<char>) -> Seq<char> {
    trim_end(trim_start(cs))
}

proof fn lemma_trim_start(cs: Seq<char>, a: int)
    requires
        0 <= a <= cs.len(),
        forall|j: int| 0 <= j < a ==> char_is_whitespace(#[trigger] cs[j]),
        a < cs.len() ==> !char_is_whitespace(cs[a]),
    ensures
        trim_start(cs) == cs.skip(a),
    decreases cs.len(),
{
    if a > 0 {
        assert(char_is_whitespace(cs[0]));
        assert forall|j: int| 0 <= j < a - 1 implies char_is_whitespace(#[trigger] cs.drop_first()[j]) by {
            assert(cs.drop_first()[j] == cs[j + 1]);
        }
        lemma_trim_start(cs.drop_first(), a - 1);
        assert(cs.drop_first().skip(a - 1) =~= cs.skip(a));
    } else {
        assert(cs.skip(0) =~= cs);
    }
}

proof fn lemma_trim_end(cs: Seq<char>, b: int)
    requires
        0 <= b <= cs.len(),
        forall|j: int| b <= j < cs.len() ==> char_is_whitespace(#[trigger] cs[j]),
        b > 0 ==> !char_is_whitespace(cs[b - 1]),
    ensures
        trim_end(cs) == cs.take(b),
    decreases cs.len(),
{
    if b < cs.len() {
        assert(char_is_whitespace(cs.last()));
        assert forall|j: int| b <= j < cs.len() - 1 implies char_is_whitespace(#[trigger] cs.drop_last()[j]) by {
            assert(cs.drop_last()[j] == cs[j]);
        }
        lemma_trim_end(cs.drop_last(), b);
        assert(cs.drop_last().take(b) =~= cs.take(b));
    } else {
        assert(cs.take(b) =~= cs);
    }
}

/// `cs` without its trailing whitespace.
pub fn trim_end_chars(cs: &[char]) -> (r: Vec<char>)
    ensures
        r@ == trim_end(cs@),
{
    let mut b: usize = cs.len();
    while b > 0 && is_whitespace(cs[b - 1])
        invariant
            b <= cs@.len(),
            forall|j: int| b <= j < cs@.len() ==> char_is_whitespace(#[trigger] cs@[j]),
        decreases b,
    {
        b -= 1;
    }
    proof {
        lemma_trim_end(cs@, b as int);
    }
    let r = vstd::slice::slice_to_vec(vstd::slice::slice_subrange(cs, 0, b));
    assert(r@ =~= cs@.take(b as int));
    r
}

/// `cs` without its leading whitespace.
pub fn trim_start_chars(cs: &[char]) -> (r: Vec<char>)
    ensures
        r@ == trim_start(cs@),
{
    let mut a: usize = 0;
    while a < cs.len() && is_whitespace(cs[a])
        invariant
            a <= cs@.len(),
            forall|j: int| 0 <= j < a ==> char_is_whitespace(#[trigger] cs@[j]),
        decreases cs@.len() - a,
    {
        a += 1;
    }
    proof {
        lemma_trim_start(cs@, a as int);
    }
    let r = vstd::slice::slice_to_vec(vstd::slice::slice_subrange(cs, a, cs.len()));
    assert(r@ =~= cs@.skip(a as int));
    r
}

/// `cs` without its leading and trailing whitespace.
pub fn trim_chars(cs: &[char]) -> (r: Vec<char>)
    ensures
        r@ == trimmed(cs@),
{
    let mut a: usize = 0;
    while a < cs.len() && is_whitespace(cs[a])
        invariant
            a <= cs@.len(),
            forall|j: int| 0 <= j < a ==> char_is_whitespace(#[trigger] cs@[j]),
        decreases cs@.len() - a,
    {
        a += 1;
    }
    let mut b: usize = cs.len();
    while b > a && is_whitespace(cs[b - 1])
        invariant
            a <= b <= cs@.len(),
            forall|j: int| b <= j < cs@.len() ==> char_is_whitespace(#[trigger] cs@[j]),
        decreases b,
    {
        b -= 1;
    }
    proof {
        lemma_trim_start(cs@, a as int);
        let t = cs@.skip(a as int);
        assert forall|j: int| b - a <= j < t.len() implies char_is_whitespace(#[trigger] t[j]) by {
            assert(t[j] == cs@[j + a]);
        }
        if b > a {
            assert(t[b - a - 1] == cs@[b - 1]);
        }
        lemma_trim_end(t, b - a);
        assert(t.take(b - a) =~= cs@.subrange(a as int, b as int));
    }
    let r = vstd::slice::slice_to_vec(vstd::slice::slice_subrange(cs, a, b));
    assert(r@ =~= cs@.subrange(a as int, b as int));
    r
}

/// The length of the leading run of characters that are not whitespace.
pub open spec fn word_len(cs: Seq<char>) -> nat
    decreases cs.len(),
{
    if cs.len() > 0 && !char_is_whitespace(cs[0]) {
        1 + word_len(cs.drop_first())
    } else {
        0
    }
}

proof fn lemma_word_len(cs: Seq<char>)
    ensures
        word_len(cs) <= cs.len(),
        cs.len() > 0 && !char_is_whitespace(cs[0]) ==> word_len(cs) >= 1,
        forall|j: int| 0 <= j < word_len(cs) ==> !char_is_whitespace(#[trigger] cs[j]),
        word_len(cs) < cs.len() ==> char_is_whitespace(cs[word_len(cs) as int]),
    decreases cs.len(),
{
    if cs.len() > 0 && !char_is_whitespace(cs[0]) {
        lemma_word_len(cs.drop_first());
        assert forall|j: int| 0 <= j < word_len(cs) implies !char_is_whitespace(#[trigger] cs[j]) by {
            if j > 0 {
                assert(cs[j] == cs.drop_first()[j - 1]);
            }
        }
    }
}

/// The words of `cs`: its maximal runs of characters that are not whitespace, in order.
pub open spec fn words(cs: Seq<char>) -> Seq<Seq<char>>
    decreases cs.len(),
{
    if cs.len() == 0 {
        Seq::empty()
    } else if char_is_whitespace(cs[0]) {
        words(cs.drop_first())
    } else {
        let n = word_len(cs);
        if 0 < n <= cs.len() {
            seq![cs.take(n as int)] + words(cs.skip(n as int))
        } else {
            Seq::empty()
        }
    }
}

/// The words of `cs`, as `str::split_whitespace` gives them.
pub fn words_of(cs: &[char]) -> (r: Vec<Vec<char>>)
    ensures
        r@.map_values(|w: Vec<char>| w@) == words(cs@),
{
    let mut acc: Vec<Vec<char>> = Vec::new();
    let mut i: usize = 0;
    assert(cs@.skip(0) =~= cs@);
    while i < cs.len()
        invariant
            i <= cs@.len(),
            acc@.map_values(|w: Vec<char>| w@) + words(cs@.skip(i as int)) == words(cs@),
        decreases cs@.len() - i,
    {
        let ghost rest = cs@.skip(i as int);
        if is_whitespace(cs[i]) {
            assert(rest.drop_first() =~= cs@.skip(i + 1));
            i += 1;
        } else {
            let mut j: usize = i;
            while j < cs.len() && !is_whitespace(cs[j])
                invariant
                    i <= j <= cs@.len(),
                    forall|k: int| i <= k < j ==> !char_is_whitespace(#[trigger] cs@[k]),
                decreases cs@.len() - j,
            {
                j += 1;
            }
            proof {
                lemma_word_len(rest);
                let n = word_len(rest) as int;
                if n < j - i {
                    assert(char_is_whitespace(rest[n]));
                    assert(rest[n] == cs@[i + n]);
                }
                if n > j - i {
                    assert(!char_is_whitespace(rest[j - i]));
                    assert(rest[j - i] == cs@[j as int]);
                }
                assert(n == j - i);
                assert(rest.skip(n) =~= cs@.skip(j as int));
                assert(rest.take(n) =~= cs@.subrange(i as int, j as int));
            }
            let w = vstd::slice::slice_to_vec(vstd::slice::slice_subrange(cs, i, j));
            let ghost before = acc@.map_values(|w: Vec<char>| w@);
            acc.push(w);
            assert(acc@.map_values(|w: Vec<char>| w@) =~= before.push(cs@.subrange(i as int, j as int)));
            assert(before.push(cs@.subrange(i as int, j as int)) + words(cs@.skip(j as int)) =~= before + (
            seq![cs@.subrange(i as int, j as int)] + words(cs@.skip(j as int))));
            i = j;
        }
    }
    assert(cs@.skip(i as int) =~= Seq::<char>::empty());
    assert(acc@.map_values(|w: Vec<char>| w@) + words(Seq::<char>::empty()) =~= acc@.map_values(|w: Vec<char>| w@));
    acc
}

/// Whether `c` is a decimal digit.
pub open spec fn is_digit(c: char) -> bool {
    '0' <= c && c <= '9'
}

/// The value of a run of decimal digits.
pub open spec fn digits_value(cs: Seq<char>) -> int
    decreases cs.len(),
{
    if cs.len() == 0 {
        0
    } else {
        digits_value(cs.drop_last()) * 10 + (cs.last() as int - '0' as int)
    }
}

/// Whether `cs` is a non-empty run of decimal digits.
pub open spec fn all_digits(cs: Seq<char>) -> bool {
    cs.len() > 0 && forall|i: int| 0 <= i < cs.len() ==> is_digit(#[trigger] cs[i])
}

/// The value of an unsigned decimal numeral: an optional `+`, then digits.
pub open spec fn unsigned_value(cs: Seq<char>) -> Option<int> {
    let body = if cs.len() > 0 && cs[0] == '+' {
        cs.drop_first()
    } else {
        cs
    };
    if all_digits(body) {
        Some(digits_value(body))
    } else {
        None
    }
}

/// The value of a signed decimal numeral: an optional `+` or `-`, then digits.
pub open spec fn signed_value(cs: Seq<char>) -> Option<int> {
    if cs.len() > 0 && cs[0] == '-' {
        if all_digits(cs.drop_first()) {
            Some(-digits_value(cs.drop_first()))
        } else {
            None
        }
    } else {
        unsigned_value(cs)
    }
}

proof fn lemma_digits_value(cs: Seq<char>, i: int)
    requires
        0 <= i <= cs.len(),
        forall|k: int| 0 <= k < cs.len() ==> is_digit(#[trigger] cs[k]),
    ensures
        0 <= digits_value(cs.take(i)) <= digits_value(cs),
    decreases cs.len(),
{
    if cs.len() > 0 {
        if i == cs.len() {
            assert(cs.take(i) =~= cs);
            lemma_digits_value(cs.drop_last(), cs.len() - 1);
            assert(cs.drop_last().take(cs.len() - 1) =~= cs.drop_last());
        } else {
            lemma_digits_value(cs.drop_last(), i);
            assert(cs.drop_last().take(i) =~= cs.take(i));
            lemma_digits_value(cs.drop_last(), cs.len() - 1);
            assert(cs.drop_last().take(cs.len() - 1) =~= cs.drop_last());
        }
    } else {
        assert(cs.take(i) =~= cs);
    }
}

/// The value of the digits `cs[from..]`, where it fits in a `usize`.
fn digits_usize(cs: &[char], from: usize) -> (r: Option<usize>)
    requires
        from <= cs@.len(),
    ensures
        ({
            let body = cs@.skip(from as int);
            &&& r matches Some(v) ==> all_digits(body) && v == digits_value(body)
            &&& r is None ==> !all_digits(body) || digits_value(body) > usize::MAX
        }),
{
    let ghost body = cs@.skip(from as int);
    if from == cs.len() {
        return None;
    }
    let mut acc: usize = 0;
    let mut i: usize = from;
    while i < cs.len()
        invariant
            from <= i <= cs@.len(),
            body == cs@.skip(from as int),
            forall|k: int| from <= k < i ==> is_digit(#[trigger] cs@[k]),
            acc == digits_value(body.take(i - from)),
        decreases cs@.len() - i,
    {
        let c = cs[i];
        if !('0' <= c && c <= '9') {
            assert(!is_digit(body[i - from]));
            return None;
        }
        let d = (c as u32 - '0' as u32) as usize;
        assert(body.take(i + 1 - from).drop_last() =~= body.take(i - from));
        match acc.checked_mul(10) {
            Some(m) => match m.checked_add(d) {
                Some(v) => {
                    acc = v;
                },
                None => {
                    proof {
                        if all_digits(body) {
                            lemma_digits_value(body, i + 1 - from);
                        }
                    }
                    return None;
                },
            },
            None => {
                proof {
                    if all_digits(body) {
                        lemma_digits_value(body, i + 1 - from);
                    }
                }
                return None;
            },
        }
        i += 1;
    }
    assert(body.take(i - from) =~= body);
    Some(acc)
}

/// Parses an unsigned decimal numeral that fits in a `usize`, as `str::parse::<usize>` does.
pub fn parse_usize(cs: &[char]) -> (r: Option<usize>)
    ensures
        r is Some <==> (unsigned_value(cs@) matches Some(v) && v <= usize::MAX),
        r matches Some(v) ==> unsigned_value(cs@) == Some(v as int),
{
    if cs.len() > 0 && cs[0] == '+' {
        assert(cs@.skip(1) =~= cs@.drop_first());
        digits_usize(cs, 1)
    } else {
        assert(cs@.skip(0) =~= cs@);
        digits_usize(cs, 0)
    }
}

/// Parses a signed decimal numeral that fits in an `isize`, as `str::parse::<isize>` does.
pub fn parse_isize(cs: &[char]) -> (r: Option<isize>)
    ensures
        r is Some <==> (signed_value(cs@) matches Some(v) && isize::MIN <= v <= isize::MAX),
        r matches Some(v) ==> signed_value(cs@) == Some(v as int),
{
    if cs.len() > 0 && cs[0] == '-' {
        assert(cs@.skip(1) =~= cs@.drop_first());
        match digits_usize(cs, 1) {
            Some(m) => {
                if m <= isize::MAX as usize {
                    Some(-(m as isize))
                } else if m == (isize::MAX as usize) + 1 {
                    Some(isize::MIN)
                } else {
                    None
                }
            },
            None => None,
        }
    } else {
        let parsed = if cs.len() > 0 && cs[0] == '+' {
            assert(cs@.skip(1) =~= cs@.drop_first());
            digits_usize(cs, 1)
        } else {
            assert(cs@.skip(0) =~= cs@);
            digits_usize(cs, 0)
        };
        match parsed {
            Some(m) => {
                if m <= isize::MAX as usize {
                    Some(m as isize)
                } else {
                    None
                }
            },
            None => None,
        }
    }
}

/// The decimal digit character for a value below ten.
pub open spec fn digit_char(d: int) -> char {
    (d + '0' as int) as char
}

/// The decimal numeral of `n`.
pub open spec fn decimal(n: nat) -> Seq<char>
    decreases n,
{
    if n < 10 {
        seq![digit_char(n as int)]
    } else {
        decimal(n / 10).push(digit_char((n % 10) as int))
    }
}

/// The decimal numeral of `n`, as `to_string` writes it.
pub fn usize_to_string(n: usize) -> (s: String)
    ensures
        s@ == decimal(n as nat),
{
    let mut digits: Vec<char> = Vec::new();
    let mut m: usize = n;
    let ghost mut taken: nat = 0;
    while m >= 10
        invariant
            decimal(n as nat) == decimal(m as nat) + digits@.reverse(),
        decreases m,
    {
        let d = m % 10;
        let c = ((d as u8) + 48u8) as char;
        assert(c == digit_char(d as int)) by {
            assert(d < 10);
        }
        let ghost old_digits = digits@;
        digits.push(c);
        assert(decimal(m as nat) == decimal((m / 10) as nat).push(c));
        assert(digits@.reverse() =~= seq![c] + old_digits.reverse());
        assert(decimal(m as nat) + old_digits.reverse() =~= decimal((m / 10) as nat) + digits@.reverse());
        m = m / 10;
    }
    let c = ((m as u8) + 48u8) as char;
    assert(decimal(m as nat) == seq![c]);
    let mut out: Vec<char> = Vec::new();
    out.push(c);
    let mut k: usize = digits.len();
    while k > 0
        invariant
            k <= digits@.len(),
            out@ == seq![c] + digits@.subrange(k as int, digits@.len() as int).reverse(),
        decreases k,
    {
        k -= 1;
        let ghost old_out = out@;
        out.push(digits[k]);
        assert(digits@.subrange(k as int, digits@.len() as int).reverse() =~= digits@.subrange(
            (k + 1) as int,
            digits@.len() as int,
        ).reverse().push(digits@[k as int]));
    }
    assert(digits@.subrange(0, digits@.len() as int) =~= digits@);
    string_of(out.as_slice())
}

/// Whether `p` occurs in `s`.
pub open spec fn contains_sub(s: Seq<char>, p: Seq<char>) -> bool {
    exists|i: int| 0 <= i && i + p.len() <= s.len() && #[trigger] s.subrange(i, i + p.len()) == p
}

/// Whether the characters of `p` occur in `cs`.
pub fn contains_str(cs: &[char], p: &str) -> (r: bool)
    ensures
        r == contains_sub(cs@, p@),
{
    let pc = chars_of(p);
    if pc.len() > cs.len() {
        return false;
    }
    let len = cs.len();
    let last = len - pc.len();
    let mut i: usize = 0;
    while i <= last
        invariant
            pc@ == p@,
            len == cs@.len(),
            i <= last,
            last + pc@.len() == len,
            forall|j: int| 0 <= j < i ==> #[trigger] cs@.subrange(j, j + pc@.len()) != pc@,
        ensures
            forall|j: int| 0 <= j <= last ==> #[trigger] cs@.subrange(j, j + pc@.len()) != pc@,
        decreases last + 1 - i,
    {
        let mut k: usize = 0;
        let mut same = true;
        while k < pc.len()
            invariant
                i <= last,
                len == cs@.len(),
                last + pc@.len() == len,
                k <= pc@.len(),
                same == forall|t: int| 0 <= t < k ==> cs@[i + t] == pc@[t],
            decreases pc@.len() - k,
        {
            if cs[i + k] != pc[k] {
                same = false;
            }
            k += 1;
        }
        if same {
            assert(cs@.subrange(i as int, i + pc@.len()) =~= pc@);
            return true;
        }
        assert(cs@.subrange(i as int, i + pc@.len()) != pc@) by {
            let t = choose|t: int| 0 <= t < pc@.len() && cs@[i + t] != pc@[t];
            assert(cs@.subrange(i as int, i + pc@.len())[t] != pc@[t]);
        }
        if i == last {
            break;
        }
        i += 1;
    }
    proof {
        if contains_sub(cs@, p@) {
            let j = choose|j: int| 0 <= j && j + p@.len() <= cs@.len() && #[trigger] cs@.subrange(j, j + p@.len()) == p@;
            assert(cs@.subrange(j, j + pc@.len()) != pc@);
        }
    }
    false
}

} // verus!
