//! Text building blocks: decimal rendering, padding, centring, and the
//! word-wrapping used by the long report form.
//!
//! Each executable function appends to a `String` and is specified against a
//! spec-level description of the characters it appends.

use vstd::prelude::*;

verus! {

/// Relies on `String::push`: appends the given character to the end of the
/// string, leaving the earlier characters in place.
pub assume_specification[ String::push ](s: &mut String, c: char)
    ensures
        final(s)@ == old(s)@.push(c),
;

/// The character `c`, `n` times over.
pub open spec fn repeat_char(c: char, n: nat) -> Seq<char>
    decreases n,
{
    if n == 0 {
        Seq::empty()
    } else {
        repeat_char(c, (n - 1) as nat).push(c)
    }
}

/// The digit character for a value between 0 and 9.
pub open spec fn decimal_digit(d: int) -> char {
    if d == 0 {
        '0'
    } else if d == 1 {
        '1'
    } else if d == 2 {
        '2'
    } else if d == 3 {
        '3'
    } else if d == 4 {
        '4'
    } else if d == 5 {
        '5'
    } else if d == 6 {
        '6'
    } else if d == 7 {
        '7'
    } else if d == 8 {
        '8'
    } else {
        '9'
    }
}

/// The decimal digits of a non-negative number, most significant first.
pub open spec fn decimal_digits(n: int) -> Seq<char>
    decreases n,
{
    if n <= 9 {
        seq![decimal_digit(n)]
    } else {
        decimal_digits(n / 10).push(decimal_digit(n % 10))
    }
}

/// The decimal digits of `n`, left-padded with zeroes to at least `width`
/// characters.
pub open spec fn zero_padded_decimal(n: int, width: nat) -> Seq<char> {
    let digits = decimal_digits(n);
    if digits.len() >= width {
        digits
    } else {
        repeat_char('0', (width - digits.len()) as nat) + digits
    }
}

/// `s`, padded on the right with `fill` to at least `width` characters.
pub open spec fn pad_left_aligned(s: Seq<char>, width: nat, fill: char) -> Seq<char> {
    if s.len() >= width {
        s
    } else {
        s + repeat_char(fill, (width - s.len()) as nat)
    }
}

/// `s`, centred in a field of `width` spaces; a leftover space goes on the
/// right.
pub open spec fn pad_centered(s: Seq<char>, width: nat) -> Seq<char> {
    if s.len() >= width {
        s
    } else {
        let total = (width - s.len()) as nat;
        repeat_char(' ', total / 2) + s + repeat_char(' ', (total - total / 2) as nat)
    }
}

/// Appends `n` copies of `c` to `out`.
pub fn push_repeat(out: &mut String, c: char, n: usize)
    ensures
        final(out)@ == old(out)@ + repeat_char(c, n as nat),
{
    let mut i: usize = 0;
    while i < n
        invariant
            i <= n,
            out@ == old(out)@ + repeat_char(c, i as nat),
        decreases n - i,
    {
        out.push(c);
        i = i + 1;
    }
    assert(out@ =~= old(out)@ + repeat_char(c, n as nat));
}

/// The digit character for a small value.
fn decimal_digit_char(d: u64) -> (c: char)
    requires
        d <= 9,
    ensures
        c == decimal_digit(d as int),
{
    match d {
        0 => '0',
        1 => '1',
        2 => '2',
        3 => '3',
        4 => '4',
        5 => '5',
        6 => '6',
        7 => '7',
        8 => '8',
        _ => '9',
    }
}

/// Appends the decimal digits of `n` to `out`.
pub fn push_decimal(out: &mut String, n: u64)
    ensures
        final(out)@ == old(out)@ + decimal_digits(n as int),
    decreases n,
{
    if n <= 9 {
        out.push(decimal_digit_char(n));
        assert(out@ =~= old(out)@ + decimal_digits(n as int));
    } else {
        push_decimal(out, n / 10);
        out.push(decimal_digit_char(n % 10));
        assert(out@ =~= old(out)@ + decimal_digits(n as int));
    }
}

/// Appends the decimal digits of `n`, left-padded with zeroes to at least
/// `width` characters.
pub fn push_zero_padded(out: &mut String, n: u64, width: usize)
    ensures
        final(out)@ == old(out)@ + zero_padded_decimal(n as int, width as nat),
{
    let mut digits = String::new();
    push_decimal(&mut digits, n);
    let len = digits.as_str().unicode_len();
    if len < width {
        push_repeat(out, '0', width - len);
    }
    out.append(digits.as_str());
    assert(out@ =~= old(out)@ + zero_padded_decimal(n as int, width as nat));
}

/// Appends `s`, padded on the right with `fill` to at least `width`
/// characters.
pub fn push_pad_left_aligned(out: &mut String, s: &str, width: usize, fill: char)
    ensures
        final(out)@ == old(out)@ + pad_left_aligned(s@, width as nat, fill),
{
    let len = s.unicode_len();
    out.append(s);
    if len < width {
        push_repeat(out, fill, width - len);
    }
    assert(out@ =~= old(out)@ + pad_left_aligned(s@, width as nat, fill));
}

/// Appends `s`, centred in a field of `width` spaces.
pub fn push_pad_centered(out: &mut String, s: &str, width: usize)
    ensures
        final(out)@ == old(out)@ + pad_centered(s@, width as nat),
{
    let len = s.unicode_len();
    if len >= width {
        out.append(s);
    } else {
        let total = width - len;
        push_repeat(out, ' ', total / 2);
        out.append(s);
        push_repeat(out, ' ', total - total / 2);
    }
    assert(out@ =~= old(out)@ + pad_centered(s@, width as nat));
}

/// Whether two text fragments hold the same characters.
pub fn str_eq(a: &str, b: &str) -> (r: bool)
    ensures
        r == (a@ == b@),
{
    let alen = a.unicode_len();
    let blen = b.unicode_len();
    if alen != blen {
        assert(a@ != b@);
        return false;
    }
    let mut i: usize = 0;
    while i < alen
        invariant
            i <= alen,
            alen == a@.len() == b@.len(),
            forall|k: int| 0 <= k < i ==> a@[k] == b@[k],
        decreases alen - i,
    {
        if a.get_char(i) != b.get_char(i) {
            return false;
        }
        i = i + 1;
    }
    assert(a@ =~= b@);
    true
}

/// Whether `s` starts with the characters of `p`.
pub open spec fn has_prefix(s: Seq<char>, p: Seq<char>) -> bool {
    s.len() >= p.len() && s.take(p.len() as int) == p
}

/// The characters of `s` after the prefix `p`, when `s` starts with `p`.
pub fn try_strip_prefix<'a>(s: &'a str, p: &str) -> (r: Option<&'a str>)
    ensures
        r is Some <==> has_prefix(s@, p@),
        r matches Some(rest) ==> rest@ == s@.skip(p@.len() as int),
{
    let slen = s.unicode_len();
    let plen = p.unicode_len();
    if slen < plen {
        assert(!has_prefix(s@, p@));
        return None;
    }
    let mut i: usize = 0;
    while i < plen
        invariant
            i <= plen <= slen,
            slen == s@.len(),
            plen == p@.len(),
            forall|k: int| 0 <= k < i ==> s@[k] == p@[k],
        decreases plen - i,
    {
        if s.get_char(i) != p.get_char(i) {
            assert(s@.take(p@.len() as int)[i as int] != p@[i as int]);
            return None;
        }
        i = i + 1;
    }
    assert(s@.take(p@.len() as int) =~= p@);
    Some(s.substring_char(plen, slen))
}

/// The position of the first occurrence of `sep` in `s` at or after `i`, or
/// the length of `s` when there is none.
pub open spec fn sep_end(s: Seq<char>, i: int, sep: char) -> int
    decreases s.len() - i when 0 <= i <= s.len()
{
    if i == s.len() || s[i] == sep {
        i
    } else {
        sep_end(s, i + 1, sep)
    }
}

proof fn lemma_sep_end_bounds(s: Seq<char>, i: int, sep: char)
    requires
        0 <= i <= s.len(),
    ensures
        i <= sep_end(s, i, sep) <= s.len(),
    decreases s.len() - i,
{
    if i < s.len() && s[i] != sep {
        lemma_sep_end_bounds(s, i + 1, sep);
    }
}

/// The pieces of `s` between occurrences of `sep`, from position `i` on.
/// An empty text has one empty piece, as splitting does.
pub open spec fn sep_pieces_from(s: Seq<char>, i: int, sep: char) -> Seq<Seq<char>>
    decreases s.len() - i when 0 <= i <= s.len() via sep_pieces_from_decreases
{
    let e = sep_end(s, i, sep);
    if e == s.len() {
        seq![s.subrange(i, e)]
    } else {
        seq![s.subrange(i, e)] + sep_pieces_from(s, e + 1, sep)
    }
}

#[via_fn]
proof fn sep_pieces_from_decreases(s: Seq<char>, i: int, sep: char) {
    lemma_sep_end_bounds(s, i, sep);
}

/// The pieces of `s` between occurrences of `sep`.
pub open spec fn sep_pieces(s: Seq<char>, sep: char) -> Seq<Seq<char>> {
    sep_pieces_from(s, 0, sep)
}

/// Splits `s` at every occurrence of `sep`.
pub fn split_sep(s: &str, sep: char) -> (r: Vec<String>)
    ensures
        r.deep_view() == sep_pieces(s@, sep),
{
    let n = s.unicode_len();
    let mut out: Vec<String> = Vec::new();
    let mut i: usize = 0;
    loop
        invariant_except_break
            0 <= i <= n,
            n == s@.len(),
            sep_pieces(s@, sep) =~= out.deep_view() + sep_pieces_from(s@, i as int, sep),
        ensures
            out.deep_view() =~= sep_pieces(s@, sep),
        decreases n - i,
    {
        let mut j: usize = i;
        while j < n && s.get_char(j) != sep
            invariant
                i <= j <= n,
                n == s@.len(),
                sep_end(s@, i as int, sep) == sep_end(s@, j as int, sep),
            decreases n - j,
        {
            j = j + 1;
        }
        assert(sep_end(s@, i as int, sep) == j as int);
        let piece = s.substring_char(i, j);
        out.push(piece.to_owned());
        assert(out.deep_view() =~= out.deep_view().take(out.len() - 1).push(piece@));
        if j == n {
            assert(sep_pieces_from(s@, i as int, sep) =~= seq![s@.subrange(i as int, j as int)]);
            assert(out.deep_view() =~= sep_pieces(s@, sep));
            break;
        }
        i = j + 1;
    }
    out
}

/// The value of a decimal digit character, or 10 for any other character.
pub open spec fn digit_value(c: char) -> int {
    if c == '0' {
        0
    } else if c == '1' {
        1
    } else if c == '2' {
        2
    } else if c == '3' {
        3
    } else if c == '4' {
        4
    } else if c == '5' {
        5
    } else if c == '6' {
        6
    } else if c == '7' {
        7
    } else if c == '8' {
        8
    } else if c == '9' {
        9
    } else {
        10
    }
}

fn digit_value_exec(c: char) -> (d: u32)
    ensures
        d == digit_value(c),
{
    if c == '0' {
        0
    } else if c == '1' {
        1
    } else if c == '2' {
        2
    } else if c == '3' {
        3
    } else if c == '4' {
        4
    } else if c == '5' {
        5
    } else if c == '6' {
        6
    } else if c == '7' {
        7
    } else if c == '8' {
        8
    } else if c == '9' {
        9
    } else {
        10
    }
}

/// Whether every character of `s` is a decimal digit.
pub open spec fn all_digits(s: Seq<char>) -> bool {
    forall|k: int| 0 <= k < s.len() ==> digit_value(s[k]) <= 9
}

/// The numeric value of a text of decimal digits.
pub open spec fn digits_value(s: Seq<char>) -> int
    decreases s.len(),
{
    if s.len() == 0 {
        0
    } else {
        digits_value(s.drop_last()) * 10 + digit_value(s.last())
    }
}

proof fn lemma_digits_value_nonneg(s: Seq<char>)
    requires
        all_digits(s),
    ensures
        digits_value(s) >= 0,
    decreases s.len(),
{
    if s.len() > 0 {
        assert(all_digits(s.drop_last()));
        lemma_digits_value_nonneg(s.drop_last());
    }
}

/// With every character a digit, the value of a prefix never exceeds the
/// value of the whole.
proof fn lemma_digits_value_prefix(s: Seq<char>, k: int)
    requires
        all_digits(s),
        0 <= k <= s.len(),
    ensures
        digits_value(s.take(k)) <= digits_value(s),
    decreases s.len() - k,
{
    if k < s.len() {
        lemma_digits_value_prefix(s, k + 1);
        assert(s.take(k + 1).drop_last() =~= s.take(k));
        assert(all_digits(s.take(k)));
        lemma_digits_value_nonneg(s.take(k));
    } else {
        assert(s.take(k) =~= s);
    }
}

/// The digit characters of `s` after an optional leading plus sign.
pub open spec fn unsigned_digits(s: Seq<char>) -> Seq<char> {
    if s.len() >= 1 && s[0] == '+' {
        s.drop_first()
    } else {
        s
    }
}

/// Whether `s` parses as an unsigned number that fits the platform's word:
/// an optional plus sign, then at least one digit, with a small enough
/// value.
pub open spec fn parses_as_unsigned(s: Seq<char>) -> bool {
    let ds = unsigned_digits(s);
    ds.len() >= 1 && all_digits(ds) && digits_value(ds) <= usize::MAX
}

/// The numeric value of a text that parses as an unsigned number.
pub open spec fn unsigned_value(s: Seq<char>) -> int {
    digits_value(unsigned_digits(s))
}

/// Parses an unsigned decimal number: an optional plus sign, then digits.
pub fn parse_unsigned(s: &str) -> (r: Option<usize>)
    ensures
        r is Some <==> parses_as_unsigned(s@),
        r matches Some(v) ==> v == unsigned_value(s@),
{
    let n = s.unicode_len();
    let mut i: usize = 0;
    if n >= 1 && s.get_char(0) == '+' {
        i = 1;
    }
    let ghost ds = unsigned_digits(s@);
    let ghost start = i as int;
    proof {
        assert(ds =~= s@.skip(start));
    }
    if i == n {
        assert(ds.len() == 0);
        return None;
    }
    let mut acc: usize = 0;
    let mut k: usize = i;
    while k < n
        invariant
            0 <= start <= k <= n,
            n == s@.len(),
            ds == unsigned_digits(s@),
            ds == s@.skip(start),
            ds.len() == n - start,
            all_digits(ds.take(k - start)),
            acc == digits_value(ds.take(k - start)),
        decreases n - k,
    {
        let c = s.get_char(k);
        let d = digit_value_exec(c);
        assert(s@.skip(start)[k - start] == s@[k as int]);
        assert(ds[k - start] == s@[k as int]);
        if d > 9 {
            assert(!all_digits(ds));
            return None;
        }
        assert(ds.take(k - start + 1).drop_last() =~= ds.take(k - start));
        if acc > (usize::MAX - d as usize) / 10 {
            proof {
                assert(digits_value(ds.take(k - start + 1)) > usize::MAX);
                if all_digits(ds) {
                    lemma_digits_value_prefix(ds, k - start + 1);
                }
            }
            return None;
        }
        acc = acc * 10 + d as usize;
        k = k + 1;
    }
    assert(ds.take(n - start) =~= ds);
    Some(acc)
}

/// ASCII whitespace, as splitting on whitespace sees it.
pub open spec fn is_ascii_ws(c: char) -> bool {
    c == ' ' || c == '\t' || c == '\n' || c == '\r' || c == '\x0C'
}

/// The position just past the word starting at `i`: the first whitespace
/// position at or after `i`, or the end of the text.
pub open spec fn word_end(s: Seq<char>, i: int) -> int
    decreases s.len() - i when 0 <= i <= s.len()
{
    if i == s.len() || is_ascii_ws(s[i]) {
        i
    } else {
        word_end(s, i + 1)
    }
}

proof fn lemma_word_end_bounds(s: Seq<char>, i: int)
    requires
        0 <= i <= s.len(),
    ensures
        i <= word_end(s, i) <= s.len(),
    decreases s.len() - i,
{
    if i < s.len() && !is_ascii_ws(s[i]) {
        lemma_word_end_bounds(s, i + 1);
    }
}

/// The whitespace-separated words of `s` from position `i` on.
pub open spec fn words_from(s: Seq<char>, i: int) -> Seq<Seq<char>>
    decreases s.len() - i when 0 <= i <= s.len() via words_from_decreases
{
    if i == s.len() {
        Seq::empty()
    } else if is_ascii_ws(s[i]) {
        words_from(s, i + 1)
    } else {
        seq![s.subrange(i, word_end(s, i))] + words_from(s, word_end(s, i))
    }
}

#[via_fn]
proof fn words_from_decreases(s: Seq<char>, i: int) {
    if 0 <= i && i < s.len() && !is_ascii_ws(s[i]) {
        lemma_word_end_bounds(s, i + 1);
    }
}

/// The whitespace-separated words of `s`.
pub open spec fn words_of(s: Seq<char>) -> Seq<Seq<char>> {
    words_from(s, 0)
}

fn is_ascii_ws_exec(c: char) -> (r: bool)
    ensures
        r == is_ascii_ws(c),
{
    c == ' ' || c == '\t' || c == '\n' || c == '\r' || c == '\x0C'
}

/// Splits `s` into its whitespace-separated words.
pub fn split_words(s: &str) -> (w: Vec<String>)
    ensures
        w.deep_view() == words_of(s@),
{
    let n = s.unicode_len();
    let mut out: Vec<String> = Vec::new();
    let mut i: usize = 0;
    proof {
        assert(words_of(s@) =~= out.deep_view() + words_from(s@, 0));
    }
    while i < n
        invariant
            0 <= i <= n,
            n == s@.len(),
            words_of(s@) == out.deep_view() + words_from(s@, i as int),
        decreases n - i,
    {
        let c = s.get_char(i);
        if is_ascii_ws_exec(c) {
            i = i + 1;
        } else {
            let mut j = i + 1;
            while j < n && !is_ascii_ws_exec(s.get_char(j))
                invariant
                    i < j <= n,
                    n == s@.len(),
                    word_end(s@, i as int) == word_end(s@, j as int),
                decreases n - j,
            {
                j = j + 1;
            }
            assert(word_end(s@, i as int) == j as int);
            let piece = s.substring_char(i, j);
            let ghost prevdv = out.deep_view();
            out.push(piece.to_owned());
            proof {
                assert(out.deep_view() =~= prevdv.push(piece@));
                assert(words_from(s@, i as int) =~= seq![piece@] + words_from(s@, j as int));
                assert(out.deep_view() + words_from(s@, j as int) =~= prevdv + words_from(
                    s@,
                    i as int,
                ));
            }
            i = j;
        }
    }
    proof {
        assert(out.deep_view() + words_from(s@, n as int) =~= out.deep_view());
    }
    out
}

/// The words, wrapped: a word that still fits the remaining budget of the
/// line follows on it; otherwise a line break and the continuation prefix
/// come first and the budget restarts. Each word carries a trailing space; a
/// newline ends the block. A word longer than the whole budget exceeds it on
/// its own line.
pub open spec fn wrap_words(
    ws: Seq<Seq<char>>,
    counter: int,
    threshold: int,
    cont: Seq<char>,
) -> Seq<char>
    decreases ws.len(),
{
    if ws.len() == 0 {
        seq!['\n']
    } else {
        let w = ws[0];
        if counter > w.len() {
            w + seq![' '] + wrap_words(
                ws.drop_first(),
                counter - w.len() - 1,
                threshold,
                cont,
            )
        } else {
            seq!['\n'] + cont + w + seq![' '] + wrap_words(
                ws.drop_first(),
                if threshold >= w.len() + 1 {
                    threshold - w.len() - 1
                } else {
                    0
                },
                threshold,
                cont,
            )
        }
    }
}

/// The continuation prefix of an indent: its first character (the border),
/// then spaces up to the text column.
pub open spec fn continuation_of(indent: Seq<char>) -> Seq<char> {
    seq![indent[0]] + repeat_char(' ', (indent.len() - 1) as nat)
}

/// A wrapped block: the indent, then the words of `s` wrapped at the
/// character budget `threshold`.
pub open spec fn wrapped_block(indent: Seq<char>, s: Seq<char>, threshold: int) -> Seq<char> {
    indent + wrap_words(words_of(s), threshold, threshold, continuation_of(indent))
}

/// Appends a wrapped block to `out`.
pub fn push_wrapped(out: &mut String, indent: &str, s: &str, threshold: usize)
    requires
        indent@.len() >= 1,
    ensures
        final(out)@ == old(out)@ + wrapped_block(indent@, s@, threshold as int),
{
    out.append(indent);
    let mut cont = String::new();
    cont.push(indent.get_char(0));
    push_repeat(&mut cont, ' ', indent.unicode_len() - 1);
    proof {
        assert(cont@ =~= continuation_of(indent@));
    }
    let words = split_words(s);
    let ghost goal = old(out)@ + wrapped_block(indent@, s@, threshold as int);
    let mut counter: usize = threshold;
    let mut k: usize = 0;
    proof {
        assert(words.deep_view().skip(0) =~= words_of(s@));
        assert(out@ + wrap_words(words_of(s@), threshold as int, threshold as int, cont@) =~= goal);
    }
    while k < words.len()
        invariant
            k <= words@.len(),
            words.deep_view() == words_of(s@),
            cont@ == continuation_of(indent@),
            goal == old(out)@ + wrapped_block(indent@, s@, threshold as int),
            out@ + wrap_words(
                words.deep_view().skip(k as int),
                counter as int,
                threshold as int,
                cont@,
            ) == goal,
        decreases words@.len() - k,
    {
        let ghost rest = words.deep_view().skip(k as int);
        proof {
            assert(rest.drop_first() =~= words.deep_view().skip(k as int + 1));
            assert(words.deep_view()[k as int] == words@[k as int]@);
            assert(rest[0] == words.deep_view()[k as int]);
        }
        let w = &words[k];
        let wlen = w.as_str().unicode_len();
        if counter > wlen {
            out.append(w.as_str());
            out.push(' ');
            counter = counter - wlen - 1;
        } else {
            out.push('\n');
            out.append(cont.as_str());
            out.append(w.as_str());
            out.push(' ');
            counter = if threshold > wlen {
                threshold - wlen - 1
            } else {
                0
            };
        }
        proof {
            assert(out@ + wrap_words(
                words.deep_view().skip(k as int + 1),
                counter as int,
                threshold as int,
                cont@,
            ) =~= goal);
        }
        k = k + 1;
    }
    out.push('\n');
    proof {
        assert(words.deep_view().skip(words@.len() as int) =~= Seq::<Seq<char>>::empty());
        assert(out@ =~= goal);
    }
}

/// Lexicographic order on texts, by code point: the empty text comes first,
/// and otherwise the first differing character decides.
pub open spec fn lex_le(a: Seq<char>, b: Seq<char>) -> bool
    decreases a.len(),
{
    if a.len() == 0 {
        true
    } else if b.len() == 0 {
        false
    } else if (a[0] as u32) < (b[0] as u32) {
        true
    } else if (a[0] as u32) > (b[0] as u32) {
        false
    } else {
        lex_le(a.drop_first(), b.drop_first())
    }
}

/// The lexicographic order is total.
pub proof fn lemma_lex_le_total(a: Seq<char>, b: Seq<char>)
    ensures
        lex_le(a, b) || lex_le(b, a),
    decreases a.len(),
{
    if a.len() > 0 && b.len() > 0 && (a[0] as u32) == (b[0] as u32) {
        lemma_lex_le_total(a.drop_first(), b.drop_first());
    }
}

/// Whether `a` comes at or before `b` in lexicographic text order.
pub fn str_le(a: &str, b: &str) -> (r: bool)
    ensures
        r == lex_le(a@, b@),
{
    let alen = a.unicode_len();
    let blen = b.unicode_len();
    let mut i: usize = 0;
    proof {
        assert(a@.skip(0) =~= a@);
        assert(b@.skip(0) =~= b@);
    }
    while i < alen && i < blen
        invariant
            i <= alen,
            i <= blen,
            alen == a@.len(),
            blen == b@.len(),
            lex_le(a@, b@) == lex_le(a@.skip(i as int), b@.skip(i as int)),
        decreases alen - i,
    {
        let ca = a.get_char(i);
        let cb = b.get_char(i);
        proof {
            assert(a@.skip(i as int)[0] == a@[i as int]);
            assert(b@.skip(i as int)[0] == b@[i as int]);
            assert(a@.skip(i as int).drop_first() =~= a@.skip(i as int + 1));
            assert(b@.skip(i as int).drop_first() =~= b@.skip(i as int + 1));
        }
        if (ca as u32) < (cb as u32) {
            return true;
        }
        if (ca as u32) > (cb as u32) {
            return false;
        }
        i = i + 1;
    }
    proof {
        if i == alen {
            assert(a@.skip(i as int).len() == 0);
        } else {
            assert(b@.skip(i as int).len() == 0);
            assert(a@.skip(i as int).len() > 0);
        }
    }
    i == alen
}

/// `x`, inserted in front of the first text it does not follow.
pub open spec fn insert_text(x: Seq<char>, s: Seq<Seq<char>>) -> Seq<Seq<char>>
    decreases s.len(),
{
    if s.len() == 0 {
        seq![x]
    } else if lex_le(x, s[0]) {
        seq![x] + s
    } else {
        seq![s[0]] + insert_text(x, s.drop_first())
    }
}

/// Insertion sort of texts, in lexicographic order.
pub open spec fn sort_texts(s: Seq<Seq<char>>) -> Seq<Seq<char>>
    decreases s.len(),
{
    if s.len() == 0 {
        Seq::empty()
    } else {
        insert_text(s.last(), sort_texts(s.drop_last()))
    }
}

/// Pairwise ordered under `lex_le`.
pub open spec fn texts_sorted(s: Seq<Seq<char>>) -> bool {
    forall|i: int, j: int| 0 <= i < j < s.len() ==> lex_le(s[i], s[j])
}

proof fn lemma_insert_text_sorted(x: Seq<char>, s: Seq<Seq<char>>)
    requires
        texts_sorted(s),
    ensures
        texts_sorted(insert_text(x, s)),
        insert_text(x, s).len() == s.len() + 1,
        forall|y: Seq<char>| #[trigger] insert_text(x, s).contains(y) ==> (y == x || s.contains(
            y,
        )),
        insert_text(x, s).contains(x),
        forall|y: Seq<char>| #[trigger] s.contains(y) ==> insert_text(x, s).contains(y),
    decreases s.len(),
{
    let r = insert_text(x, s);
    if s.len() == 0 {
        assert(r == seq![x]);
        assert(r[0] == x);
        assert forall|y: Seq<char>| #[trigger] r.contains(y) implies (y == x || s.contains(
            y,
        )) by {
            let i = choose|i: int| 0 <= i < r.len() && r[i] == y;
        }
    } else if lex_le(x, s[0]) {
        assert(r == seq![x] + s);
        assert(r[0] == x);
        assert forall|i: int, j: int| 0 <= i < j < r.len() implies lex_le(r[i], r[j]) by {
            if i == 0 {
                assert(r[j] == s[j - 1]);
                if j > 1 {
                    assert(lex_le(s[0], s[j - 1]));
                    lemma_lex_le_trans(x, s[0], s[j - 1]);
                }
            } else {
                assert(r[i] == s[i - 1] && r[j] == s[j - 1]);
            }
        }
        assert forall|y: Seq<char>| #[trigger] r.contains(y) implies (y == x || s.contains(
            y,
        )) by {
            let i = choose|i: int| 0 <= i < r.len() && r[i] == y;
            if i > 0 {
                assert(s[i - 1] == y);
            }
        }
        assert forall|y: Seq<char>| #[trigger] s.contains(y) implies r.contains(y) by {
            let i = choose|i: int| 0 <= i < s.len() && s[i] == y;
            assert(r[i + 1] == y);
        }
    } else {
        lemma_lex_le_total(x, s[0]);
        assert(lex_le(s[0], x));
        assert(texts_sorted(s.drop_first())) by {
            assert(forall|i: int, j: int|
                0 <= i < j < s.drop_first().len() ==> lex_le(
                    #[trigger] s.drop_first()[i],
                    #[trigger] s.drop_first()[j],
                ));
        }
        lemma_insert_text_sorted(x, s.drop_first());
        let tail = insert_text(x, s.drop_first());
        assert(r == seq![s[0]] + tail);
        assert forall|i: int, j: int| 0 <= i < j < r.len() implies lex_le(r[i], r[j]) by {
            if i == 0 {
                assert(r[j] == tail[j - 1]);
                assert(tail.contains(tail[j - 1])) by {
                    assert(tail[j - 1] == tail[j - 1]);
                }
                let y = tail[j - 1];
                if y == x {
                    assert(lex_le(s[0], x));
                } else {
                    assert(s.drop_first().contains(y));
                    let w = choose|w: int| 0 <= w < s.drop_first().len() && s.drop_first()[w] == y;
                    assert(s[w + 1] == y);
                    assert(lex_le(s[0], s[w + 1]));
                }
            } else {
                assert(r[i] == tail[i - 1] && r[j] == tail[j - 1]);
            }
        }
        assert forall|y: Seq<char>| #[trigger] r.contains(y) implies (y == x || s.contains(
            y,
        )) by {
            let i = choose|i: int| 0 <= i < r.len() && r[i] == y;
            if i == 0 {
                assert(s[0] == y);
                assert(s.contains(y));
            } else {
                assert(tail[i - 1] == y);
                assert(tail.contains(y));
                if y != x {
                    assert(s.drop_first().contains(y));
                    let w = choose|w: int| 0 <= w < s.drop_first().len() && s.drop_first()[w] == y;
                    assert(s[w + 1] == y);
                    assert(s.contains(y));
                }
            }
        }
        assert(r.contains(x)) by {
            assert(tail.contains(x));
            let w = choose|w: int| 0 <= w < tail.len() && tail[w] == x;
            assert(r[w + 1] == x);
        }
        assert forall|y: Seq<char>| #[trigger] s.contains(y) implies r.contains(y) by {
            let i = choose|i: int| 0 <= i < s.len() && s[i] == y;
            if i == 0 {
                assert(r[0] == y);
            } else {
                assert(s.drop_first()[i - 1] == y);
                assert(s.drop_first().contains(y));
                assert(tail.contains(y));
                let w = choose|w: int| 0 <= w < tail.len() && tail[w] == y;
                assert(r[w + 1] == y);
            }
        }
    }
}

/// The lexicographic order is transitive.
pub proof fn lemma_lex_le_trans(a: Seq<char>, b: Seq<char>, c: Seq<char>)
    requires
        lex_le(a, b),
        lex_le(b, c),
    ensures
        lex_le(a, c),
    decreases a.len(),
{
    if a.len() > 0 && b.len() > 0 && c.len() > 0 {
        if (a[0] as u32) == (b[0] as u32) && (b[0] as u32) == (c[0] as u32) {
            lemma_lex_le_trans(a.drop_first(), b.drop_first(), c.drop_first());
        }
    }
}

/// The sorted texts are ordered, and hold exactly the elements of the
/// input, as many of them.
pub proof fn lemma_sort_texts_properties(s: Seq<Seq<char>>)
    ensures
        texts_sorted(sort_texts(s)),
        sort_texts(s).len() == s.len(),
        forall|y: Seq<char>| #[trigger] sort_texts(s).contains(y) ==> s.contains(y),
        forall|y: Seq<char>| #[trigger] s.contains(y) ==> sort_texts(s).contains(y),
    decreases s.len(),
{
    if s.len() > 0 {
        lemma_sort_texts_properties(s.drop_last());
        lemma_insert_text_sorted(s.last(), sort_texts(s.drop_last()));
        assert forall|y: Seq<char>| #[trigger] sort_texts(s).contains(y) implies s.contains(
            y,
        ) by {
            if y == s.last() {
                assert(s[s.len() - 1] == y);
            } else {
                assert(sort_texts(s.drop_last()).contains(y));
                assert(s.drop_last().contains(y));
                let w = choose|w: int| 0 <= w < s.drop_last().len() && s.drop_last()[w] == y;
                assert(s[w] == y);
            }
        }
        assert forall|y: Seq<char>| #[trigger] s.contains(y) implies sort_texts(s).contains(
            y,
        ) by {
            let i = choose|i: int| 0 <= i < s.len() && s[i] == y;
            if i < s.len() - 1 {
                assert(s.drop_last()[i] == y);
                assert(s.drop_last().contains(y));
                assert(sort_texts(s.drop_last()).contains(y));
            } else {
                assert(y == s.last());
            }
        }
    }
}

/// `insert_text` splits the sequence at the first text `x` goes before.
pub proof fn lemma_insert_text_at(x: Seq<char>, s: Seq<Seq<char>>, k: int)
    requires
        0 <= k <= s.len(),
        forall|j: int| 0 <= j < k ==> !lex_le(x, #[trigger] s[j]),
        k < s.len() ==> lex_le(x, s[k]),
    ensures
        insert_text(x, s) =~= s.take(k) + seq![x] + s.skip(k),
    decreases k,
{
    if s.len() == 0 {
        assert(insert_text(x, s) =~= s.take(k) + seq![x] + s.skip(k));
    } else if k == 0 {
        assert(insert_text(x, s) =~= s.take(0) + seq![x] + s.skip(0));
    } else {
        assert(!lex_le(x, s[0]));
        lemma_insert_text_at(x, s.drop_first(), k - 1);
        assert(insert_text(x, s) == seq![s[0]] + insert_text(x, s.drop_first()));
        assert(insert_text(x, s) =~= s.take(k) + seq![x] + s.skip(k));
    }
}

} // verus!
