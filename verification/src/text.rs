//! Text as sequences of characters: the trimming, splitting, joining and
//! formatting that the rest of the library is written in.

use vstd::prelude::*;
use vstd::utf8::*;

verus! {

// ------------------------------------------------------------------ models

/// The views of the items of a sequence.
pub open spec fn views<T: View>(items: Seq<T>) -> Seq<T::V> {
    Seq::new(items.len(), |i: int| items[i]@)
}

/// The characters with the `White_Space` property.
pub open spec fn is_space(c: char) -> bool {
    let n = c as int;
    ||| 0x9 <= n <= 0xd
    ||| n == 0x20
    ||| n == 0x85
    ||| n == 0xa0
    ||| n == 0x1680
    ||| 0x2000 <= n <= 0x200a
    ||| n == 0x2028
    ||| n == 0x2029
    ||| n == 0x202f
    ||| n == 0x205f
    ||| n == 0x3000
}

/// `s` without the white space it starts with.
pub open spec fn trim_start(s: Seq<char>) -> Seq<char>
    decreases s.len(),
{
    if s.len() > 0 && is_space(s[0]) {
        trim_start(s.skip(1))
    } else {
        s
    }
}

/// `s` without the white space it ends with.
pub open spec fn trim_end(s: Seq<char>) -> Seq<char>
    decreases s.len(),
{
    if s.len() > 0 && is_space(s.last()) {
        trim_end(s.drop_last())
    } else {
        s
    }
}

/// `s` without the white space around it.
pub open spec fn trim(s: Seq<char>) -> Seq<char> {
    trim_end(trim_start(s))
}

/// `s` without any copies of `c` at its end.
pub open spec fn trim_end_of(s: Seq<char>, c: char) -> Seq<char>
    decreases s.len(),
{
    if s.len() > 0 && s.last() == c {
        trim_end_of(s.drop_last(), c)
    } else {
        s
    }
}

/// The pieces of `s` between the occurrences of `separator`.
pub open spec fn split(s: Seq<char>, separator: char) -> Seq<Seq<char>>
    decreases s.len(),
{
    if s.len() == 0 {
        seq![s]
    } else {
        let before = split(s.drop_last(), separator);
        if s.last() == separator {
            before.push(Seq::<char>::empty())
        } else {
            before.drop_last().push(before.last().push(s.last()))
        }
    }
}

/// One line without the carriage return that precedes its line feed.
pub open spec fn without_return(line: Seq<char>) -> Seq<char> {
    if line.len() > 0 && line.last() == '\r' {
        line.drop_last()
    } else {
        line
    }
}

/// The lines of `s`: what lies between line feeds, without the carriage return
/// before each. Text that ends in a line feed has no empty line after it.
pub open spec fn lines(s: Seq<char>) -> Seq<Seq<char>> {
    let pieces = split(s, '\n');
    let ended = pieces.drop_last().map_values(|line: Seq<char>| without_return(line));
    if pieces.last().len() == 0 {
        ended
    } else {
        ended.push(pieces.last())
    }
}

/// The words of `s`: its longest runs without white space.
pub open spec fn words(s: Seq<char>) -> Seq<Seq<char>>
    decreases s.len(),
{
    if s.len() == 0 {
        Seq::empty()
    } else {
        let before = words(s.drop_last());
        let c = s.last();
        if is_space(c) {
            before
        } else if s.len() >= 2 && !is_space(s[s.len() - 2]) {
            before.drop_last().push(before.last().push(c))
        } else {
            before.push(seq![c])
        }
    }
}

/// The items of `parts`, one after another, with `separator` in between.
pub open spec fn joined(parts: Seq<Seq<char>>, separator: Seq<char>) -> Seq<char>
    decreases parts.len(),
{
    if parts.len() == 0 {
        Seq::empty()
    } else if parts.len() == 1 {
        parts[0]
    } else {
        joined(parts.drop_last(), separator) + separator + parts.last()
    }
}

/// The character for one decimal digit.
pub open spec fn digit(n: int) -> char {
    (48 + n) as char
}

/// `n` in decimal, without leading zeros.
pub open spec fn decimal(n: nat) -> Seq<char>
    decreases n,
{
    if n < 10 {
        seq![digit(n as int)]
    } else {
        decimal(n / 10).push(digit((n % 10) as int))
    }
}

pub open spec fn is_ascii_upper(c: char) -> bool {
    'A' <= c <= 'Z'
}

pub open spec fn is_ascii_digit(c: char) -> bool {
    '0' <= c <= '9'
}

pub open spec fn is_ascii_alphanumeric(c: char) -> bool {
    is_ascii_digit(c) || is_ascii_upper(c) || 'a' <= c <= 'z'
}

/// `c` in lower case if it is an ASCII letter, else `c`.
pub open spec fn ascii_lower(c: char) -> char {
    if is_ascii_upper(c) {
        (c as int + 32) as char
    } else {
        c
    }
}

pub open spec fn ascii_lowercase(s: Seq<char>) -> Seq<char> {
    s.map_values(|c: char| ascii_lower(c))
}

/// True when `a` sorts strictly before `b`, compared character by character.
///
/// This is the order of `str` as well: UTF-8 keeps the order of code points.
pub open spec fn sorts_before(a: Seq<char>, b: Seq<char>) -> bool
    decreases a.len(),
{
    if b.len() == 0 {
        false
    } else if a.len() == 0 {
        true
    } else if a[0] != b[0] {
        a[0] < b[0]
    } else {
        sorts_before(a.skip(1), b.skip(1))
    }
}

/// Each name sorts before the next, so that none occurs twice.
pub open spec fn strictly_sorted(names: Seq<Seq<char>>) -> bool {
    forall|i: int, j: int|
        0 <= i < j < names.len() ==> sorts_before(#[trigger] names[i], #[trigger] names[j])
}

/// Where the order of two texts puts the first.
#[derive(Clone, Copy, PartialEq, Eq, Structural)]
pub enum Rank {
    Before,
    Same,
    After,
}

// ------------------------------------------------------------- trusted items

/// `String::push`: appends one character.
#[verifier::external_body]
pub(crate) fn push_char(out: &mut String, c: char)
    ensures
        final(out)@ == old(out)@.push(c),
{
    out.push(c)
}

/// `String::from_utf8`: the text that `bytes` encode, if they are valid UTF-8.
#[verifier::external_body]
pub(crate) fn text_from_utf8(bytes: Vec<u8>) -> (text: Option<String>)
    ensures
        text is Some <==> valid_utf8(bytes@),
        text matches Some(s) ==> encode_utf8(s@) == bytes@,
{
    String::from_utf8(bytes).ok()
}

/// What `String::from_utf8_lossy` makes of `bytes`.
pub uninterp spec fn lossy_text(bytes: Seq<u8>) -> Seq<char>;

/// `String::from_utf8_lossy`: the text that `bytes` encode, with a replacement
/// character wherever they are not valid UTF-8.
#[verifier::external_body]
pub(crate) fn text_lossy(bytes: &[u8]) -> (text: String)
    ensures
        text@ == lossy_text(bytes@),
        valid_utf8(bytes@) ==> text@ == decode_utf8(bytes@),
{
    String::from_utf8_lossy(bytes).into_owned()
}

/// What `str::to_lowercase` makes of `s`.
pub uninterp spec fn lowercase(s: Seq<char>) -> Seq<char>;

/// `str::to_lowercase`: `s` in lower case, by the Unicode rules.
#[verifier::external_body]
pub(crate) fn to_lowercase(s: &str) -> (text: String)
    ensures
        text@ == lowercase(s@),
{
    s.to_lowercase()
}

// ------------------------------------------------------------------- lemmas

pub proof fn lemma_sorts_before_irreflexive(a: Seq<char>)
    ensures
        !sorts_before(a, a),
    decreases a.len(),
{
    if a.len() > 0 {
        lemma_sorts_before_irreflexive(a.skip(1));
    }
}

pub proof fn lemma_sorts_before_transitive(a: Seq<char>, b: Seq<char>, c: Seq<char>)
    requires
        sorts_before(a, b),
        sorts_before(b, c),
    ensures
        sorts_before(a, c),
    decreases a.len(),
{
    if a.len() > 0 && a[0] == b[0] && b[0] == c[0] {
        lemma_sorts_before_transitive(a.skip(1), b.skip(1), c.skip(1));
    }
}

pub proof fn lemma_sorts_before_total(a: Seq<char>, b: Seq<char>)
    ensures
        sorts_before(a, b) || a == b || sorts_before(b, a),
    decreases a.len(),
{
    if a.len() > 0 && b.len() > 0 {
        if a[0] == b[0] {
            lemma_sorts_before_total(a.skip(1), b.skip(1));
            if a.skip(1) == b.skip(1) {
                assert(a =~= seq![a[0]] + a.skip(1));
                assert(b =~= seq![b[0]] + b.skip(1));
            }
        }
    } else if a.len() == 0 && b.len() == 0 {
        assert(a =~= b);
    }
}

/// Two texts with the same encoding are the same text.
pub proof fn lemma_encode_injective(a: Seq<char>, b: Seq<char>)
    requires
        encode_utf8(a) == encode_utf8(b),
    ensures
        a == b,
{
    encode_utf8_decode_utf8(a);
    encode_utf8_decode_utf8(b);
}

pub proof fn lemma_words_nonempty(s: Seq<char>)
    ensures
        s.len() > 0 && !is_space(s.last()) ==> words(s).len() >= 1,
    decreases s.len(),
{
    if s.len() >= 2 {
        lemma_words_nonempty(s.drop_last());
    }
}

proof fn lemma_trim_start_first(s: Seq<char>)
    ensures
        trim_start(s).len() > 0 ==> !is_space(trim_start(s)[0]),
    decreases s.len(),
{
    if s.len() > 0 && is_space(s[0]) {
        lemma_trim_start_first(s.skip(1));
    }
}

proof fn lemma_trim_end_keeps_first(s: Seq<char>)
    ensures
        trim_end(s).len() <= s.len(),
        trim_end(s).len() > 0 ==> trim_end(s)[0] == s[0] && !is_space(trim_end(s).last()),
    decreases s.len(),
{
    if s.len() > 0 && is_space(s.last()) {
        lemma_trim_end_keeps_first(s.drop_last());
    }
}

/// Text with no white space at either end is left as it is.
pub proof fn lemma_trim_plain(s: Seq<char>)
    requires
        s.len() > 0 ==> !is_space(s[0]) && !is_space(s.last()),
    ensures
        trim(s) == s,
{
}

/// Trimming twice is trimming once.
pub proof fn lemma_trim_idempotent(s: Seq<char>)
    ensures
        trim(trim(s)) == trim(s),
{
    lemma_trim_start_first(s);
    lemma_trim_end_keeps_first(trim_start(s));
    lemma_trim_plain(trim(s));
}

/// Trimming takes white space off both ends and nothing else.
pub proof fn lemma_trim_takes_off_space(s: Seq<char>)
    ensures
        exists|a: int, b: int|
            0 <= a <= b <= s.len() && trim(s) == #[trigger] s.subrange(a, b) && (forall|i: int|
                (0 <= i < a || b <= i < s.len()) ==> is_space(#[trigger] s[i])),
        trim(s).len() > 0 ==> !is_space(trim(s)[0]) && !is_space(trim(s).last()),
        trim(s).len() == 0 <==> forall|i: int| 0 <= i < s.len() ==> is_space(#[trigger] s[i]),
{
    lemma_trim_start_first(s);
    lemma_trim_end_keeps_first(trim_start(s));
    let a = lemma_trim_start_at(s);
    let mid = trim_start(s);
    let n = lemma_trim_end_at(mid);
    let b = a + n;
    assert(trim(s) =~= s.subrange(a, b));
    assert forall|i: int| (0 <= i < a || b <= i < s.len()) implies is_space(#[trigger] s[i]) by {
        if i >= b {
            assert(mid[i - a] == s[i]);
        }
    }
    if trim(s).len() > 0 {
        assert(trim(s)[0] == s[a]);
        assert(!is_space(s[a]));
    }
}

proof fn lemma_trim_start_at(s: Seq<char>) -> (a: int)
    ensures
        0 <= a <= s.len(),
        trim_start(s) == s.skip(a),
        forall|i: int| 0 <= i < a ==> is_space(#[trigger] s[i]),
    decreases s.len(),
{
    if s.len() > 0 && is_space(s[0]) {
        let rest = s.skip(1);
        let a = lemma_trim_start_at(rest);
        assert(rest.skip(a) =~= s.skip(a + 1));
        assert forall|i: int| 0 <= i < a + 1 implies is_space(#[trigger] s[i]) by {
            if i > 0 {
                assert(rest[i - 1] == s[i]);
            }
        }
        a + 1
    } else {
        assert(s.skip(0) =~= s);
        0
    }
}

proof fn lemma_trim_end_at(s: Seq<char>) -> (n: int)
    ensures
        0 <= n <= s.len(),
        trim_end(s) == s.take(n),
        forall|i: int| n <= i < s.len() ==> is_space(#[trigger] s[i]),
        n > 0 ==> !is_space(s[n - 1]),
    decreases s.len(),
{
    if s.len() > 0 && is_space(s.last()) {
        let less = s.drop_last();
        let n = lemma_trim_end_at(less);
        assert(less.take(n) =~= s.take(n));
        assert forall|i: int| n <= i < s.len() implies is_space(#[trigger] s[i]) by {
            if i < less.len() {
                assert(less[i] == s[i]);
            }
        }
        n
    } else {
        assert(s.take(s.len() as int) =~= s);
        s.len() as int
    }
}

/// What stands on either side of a separator is split by itself.
pub proof fn lemma_split_at_separator(a: Seq<char>, b: Seq<char>, separator: char)
    ensures
        split(a.push(separator) + b, separator) == split(a, separator) + split(b, separator),
    decreases b.len(),
{
    let whole = a.push(separator) + b;
    lemma_split_is_not_empty(b, separator);
    if b.len() == 0 {
        assert(whole =~= a.push(separator));
        assert(whole.drop_last() =~= a);
        assert(b =~= Seq::<char>::empty());
        assert(split(whole, separator) =~= split(a, separator) + split(b, separator));
    } else {
        let less = b.drop_last();
        lemma_split_at_separator(a, less, separator);
        lemma_split_is_not_empty(less, separator);
        assert(whole.drop_last() =~= a.push(separator) + less);
        assert(whole.last() == b.last());
        assert(split(whole, separator) =~= split(a, separator) + split(b, separator));
    }
}

pub proof fn lemma_split_is_not_empty(s: Seq<char>, separator: char)
    ensures
        split(s, separator).len() > 0,
    decreases s.len(),
{
    if s.len() > 0 {
        lemma_split_is_not_empty(s.drop_last(), separator);
    }
}

pub proof fn lemma_split_piece(before: Seq<char>, piece: Seq<char>, separator: char)
    requires
        forall|i: int| 0 <= i < piece.len() ==> #[trigger] piece[i] != separator,
    ensures
        split(before.push(separator) + piece, separator) == split(before, separator).push(piece),
{
    lemma_split_at_separator(before, piece, separator);
    lemma_split_whole(piece, separator);
    assert(split(before, separator) + seq![piece] =~= split(before, separator).push(piece));
}

/// Text without separators is one piece.
pub proof fn lemma_split_whole(piece: Seq<char>, separator: char)
    requires
        forall|i: int| 0 <= i < piece.len() ==> #[trigger] piece[i] != separator,
    ensures
        split(piece, separator) == seq![piece],
    decreases piece.len(),
{
    if piece.len() > 0 {
        let shorter = piece.drop_last();
        assert forall|i: int| 0 <= i < shorter.len() implies #[trigger] shorter[i] != separator by {
            assert(shorter[i] == piece[i]);
        }
        lemma_split_whole(shorter, separator);
        assert(piece.last() == piece[piece.len() - 1]);
        assert(shorter.push(piece.last()) =~= piece);
        assert(split(piece, separator) =~= seq![piece]);
    }
}

/// Splitting undoes joining.
pub proof fn lemma_split_undoes_joining(values: Seq<Seq<char>>, separator: char)
    requires
        values.len() > 0,
        forall|k: int, i: int|
            0 <= k < values.len() && 0 <= i < values[k].len() ==> #[trigger] values[k][i]
                != separator,
    ensures
        split(joined(values, seq![separator]), separator) == values,
    decreases values.len(),
{
    let last = values.last();
    assert(values[values.len() - 1] == last);
    assert forall|i: int| 0 <= i < last.len() implies #[trigger] last[i] != separator by {
        assert(values[values.len() - 1][i] != separator);
    }
    if values.len() == 1 {
        lemma_split_whole(last, separator);
        assert(seq![last] =~= values);
    } else {
        let less = values.drop_last();
        assert forall|k: int, i: int|
            0 <= k < less.len() && 0 <= i < less[k].len() implies #[trigger] less[k][i]
            != separator by {
            assert(values[k][i] != separator);
        }
        lemma_split_undoes_joining(less, separator);
        let before = joined(less, seq![separator]);
        assert(joined(values, seq![separator]) =~= before.push(separator) + last);
        lemma_split_piece(before, last, separator);
        assert(less.push(last) =~= values);
    }
}

/// Joining undoes splitting, and no piece holds a separator.
pub proof fn lemma_joining_undoes_split(s: Seq<char>, separator: char)
    ensures
        joined(split(s, separator), seq![separator]) == s,
        forall|k: int, i: int|
            0 <= k < split(s, separator).len() && 0 <= i < split(s, separator)[k].len()
                ==> #[trigger] split(s, separator)[k][i] != separator,
    decreases s.len(),
{
    let pieces = split(s, separator);
    if s.len() > 0 {
        let less = s.drop_last();
        let before = split(less, separator);
        lemma_joining_undoes_split(less, separator);
        lemma_split_is_not_empty(less, separator);
        assert(less.push(s.last()) =~= s);
        if s.last() == separator {
            assert(pieces.drop_last() =~= before);
            assert(joined(pieces, seq![separator]) =~= less + seq![separator] + Seq::<
                char,
            >::empty());
            assert(joined(pieces, seq![separator]) =~= s);
        } else {
            assert(pieces.drop_last() =~= before.drop_last());
            assert(pieces.last() == before.last().push(s.last()));
            if before.len() == 1 {
                assert(joined(before, seq![separator]) == before[0]);
                assert(joined(pieces, seq![separator]) == pieces[0]);
            } else {
                assert(joined(pieces, seq![separator]) =~= joined(before, seq![separator]).push(
                    s.last(),
                ));
            }
        }
        assert forall|k: int, i: int|
            0 <= k < pieces.len() && 0 <= i < pieces[k].len() implies #[trigger] pieces[k][i]
            != separator by {
            if k < before.len() && i < before[k].len() {
                assert(before[k][i] != separator);
            }
        }
    }
}

/// A line that is ended is one line, and what follows it is read by itself.
pub proof fn lemma_lines_one_by_one(line: Seq<char>, rest: Seq<char>)
    requires
        forall|i: int| 0 <= i < line.len() ==> #[trigger] line[i] != '\n',
    ensures
        lines(line.push('\n') + rest) == seq![
            if line.len() > 0 && line.last() == '\r' {
                line.drop_last()
            } else {
                line
            },
        ] + lines(rest),
        lines(Seq::empty()).len() == 0,
        line.len() > 0 ==> lines(line) == seq![line],
{
    lemma_split_at_separator(line, rest, '\n');
    lemma_split_whole(line, '\n');
    lemma_split_is_not_empty(rest, '\n');
    let first = seq![line];
    let later = split(rest, '\n');
    let pieces = split(line.push('\n') + rest, '\n');
    assert(pieces == first + later);
    assert(pieces.last() == later.last());
    let f = |line: Seq<char>| without_return(line);
    assert(pieces.drop_last().map_values(f) =~= seq![without_return(line)]
        + later.drop_last().map_values(f));
    assert(lines(line.push('\n') + rest) =~= seq![without_return(line)] + lines(rest));
    assert(split(Seq::<char>::empty(), '\n') =~= seq![Seq::<char>::empty()]);
    assert(lines(Seq::empty()) =~= Seq::<Seq<char>>::empty());
    if line.len() > 0 {
        assert(lines(line) =~= seq![line]);
    }
}

/// White space parts words: what stands on either side of it is read by itself, and
/// text without any is one word.
pub proof fn lemma_words_one_by_one(a: Seq<char>, c: char, b: Seq<char>)
    ensures
        is_space(c) ==> words(a.push(c) + b) == words(a) + words(b),
        b.len() > 0 && (forall|i: int| 0 <= i < b.len() ==> !is_space(#[trigger] b[i])) ==> words(b)
            == seq![b],
    decreases b.len(),
{
    if is_space(c) {
        lemma_words_at_space(a, c, b);
    }
    if b.len() > 0 && (forall|i: int| 0 <= i < b.len() ==> !is_space(#[trigger] b[i])) {
        let less = b.drop_last();
        assert(b.last() == b[b.len() - 1]);
        if less.len() > 0 {
            assert forall|i: int| 0 <= i < less.len() implies !is_space(#[trigger] less[i]) by {
                assert(less[i] == b[i]);
            }
            lemma_words_one_by_one(a, c, less);
            assert(less.push(b.last()) =~= b);
            assert(!is_space(b[b.len() - 2]));
            assert(words(b) =~= seq![b]);
        } else {
            assert(seq![b.last()] =~= b);
            assert(words(less) =~= Seq::<Seq<char>>::empty());
            assert(words(b) =~= seq![b]);
        }
    }
}

proof fn lemma_words_at_space(a: Seq<char>, c: char, b: Seq<char>)
    requires
        is_space(c),
    ensures
        words(a.push(c) + b) == words(a) + words(b),
    decreases b.len(),
{
    let whole = a.push(c) + b;
    if b.len() == 0 {
        assert(whole =~= a.push(c));
        assert(whole.drop_last() =~= a);
        assert(words(a) + words(b) =~= words(a));
    } else {
        let less = b.drop_last();
        lemma_words_at_space(a, c, less);
        assert(whole.drop_last() =~= a.push(c) + less);
        assert(whole.last() == b.last());
        if !is_space(b.last()) && b.len() >= 2 && !is_space(b[b.len() - 2]) {
            assert(whole[whole.len() - 2] == b[b.len() - 2]);
            lemma_words_after_letter(less);
        } else if !is_space(b.last()) {
            assert(whole[whole.len() - 2] == if b.len() >= 2 {
                b[b.len() - 2]
            } else {
                c
            });
        }
        assert(words(whole) =~= words(a) + words(b));
    }
}

proof fn lemma_words_after_letter(s: Seq<char>)
    requires
        s.len() > 0,
        !is_space(s.last()),
    ensures
        words(s).len() > 0,
    decreases s.len(),
{
    if s.len() >= 2 && !is_space(s[s.len() - 2]) {
        lemma_words_after_letter(s.drop_last());
    }
}

/// Texts are in order as words are in a dictionary: by the first character in which
/// they differ, and a text before those that continue it.
pub proof fn lemma_sorts_like_a_dictionary(
    common: Seq<char>,
    a: char,
    x: Seq<char>,
    b: char,
    y: Seq<char>,
)
    ensures
        a < b ==> sorts_before(common + (seq![a] + x), common + (seq![b] + y)),
        sorts_before(common, common + (seq![b] + y)),
    decreases common.len(),
{
    let left = common + (seq![a] + x);
    let right = common + (seq![b] + y);
    if common.len() > 0 {
        let rest = common.skip(1);
        lemma_sorts_like_a_dictionary(rest, a, x, b, y);
        assert(left.skip(1) =~= rest + (seq![a] + x));
        assert(right.skip(1) =~= rest + (seq![b] + y));
    } else {
        assert(left[0] == a);
        assert(right[0] == b);
    }
}

/// A number is written with its digits, the units last and no zero in front.
pub proof fn lemma_decimal_digits(n: nat, units: nat)
    requires
        units < 10,
    ensures
        decimal(units) == seq![(48 + units) as char],
        n > 0 ==> decimal(10 * n + units) == decimal(n).push((48 + units) as char),
{
    if n > 0 {
        assert((10 * n + units) / 10 == n && (10 * n + units) % 10 == units) by (nonlinear_arith)
            requires
                units < 10,
        ;
    }
}

// ---------------------------------------------------------------- functions

/// Compares two texts.
pub fn same_text(a: &str, b: &str) -> (same: bool)
    ensures
        same == (a@ == b@),
{
    let left = a.as_bytes();
    let right = b.as_bytes();
    if same_bytes(left, right) {
        proof {
            lemma_encode_injective(a@, b@);
        }
        true
    } else {
        false
    }
}

/// Compares two byte strings.
pub fn same_bytes(a: &[u8], b: &[u8]) -> (same: bool)
    ensures
        same == (a@ == b@),
{
    if a.len() != b.len() {
        return false;
    }
    let mut i: usize = 0;
    while i < a.len()
        invariant
            i <= a.len(),
            a.len() == b.len(),
            forall|k: int| 0 <= k < i ==> a@[k] == b@[k],
        decreases a.len() - i,
    {
        if a[i] != b[i] {
            return false;
        }
        i = i + 1;
    }
    assert(a@ =~= b@);
    true
}

/// The characters of `s`.
pub fn chars_of(s: &str) -> (out: Vec<char>)
    ensures
        out@ == s@,
{
    let mut out: Vec<char> = Vec::new();
    for c in it: s.chars()
        invariant
            out@ == it.seq().take(it.index()),
            it.seq() == s@,
    {
        out.push(c);
    }
    out
}

/// The text made of `chars`.
pub fn text_of(chars: &[char]) -> (out: String)
    ensures
        out@ == chars@,
{
    let mut out: String = String::new();
    let mut i: usize = 0;
    while i < chars.len()
        invariant
            i <= chars.len(),
            out@ == chars@.take(i as int),
        decreases chars.len() - i,
    {
        push_char(&mut out, chars[i]);
        proof {
            assert(chars@.take(i + 1) =~= chars@.take(i as int).push(chars@[i as int]));
        }
        i = i + 1;
    }
    assert(chars@.take(chars@.len() as int) =~= chars@);
    out
}

pub fn cat2(a: &str, b: &str) -> (out: String)
    ensures
        out@ == a@ + b@,
{
    let mut out: String = a.to_owned();
    out.append(b);
    out
}

pub fn cat3(a: &str, b: &str, c: &str) -> (out: String)
    ensures
        out@ == a@ + b@ + c@,
{
    let mut out: String = cat2(a, b);
    out.append(c);
    out
}

pub fn cat4(a: &str, b: &str, c: &str, d: &str) -> (out: String)
    ensures
        out@ == a@ + b@ + c@ + d@,
{
    let mut out: String = cat3(a, b, c);
    out.append(d);
    out
}

pub fn cat5(a: &str, b: &str, c: &str, d: &str, e: &str) -> (out: String)
    ensures
        out@ == a@ + b@ + c@ + d@ + e@,
{
    let mut out: String = cat4(a, b, c, d);
    out.append(e);
    out
}

/// True for a character with the `White_Space` property.
pub fn is_whitespace(c: char) -> (space: bool)
    ensures
        space == is_space(c),
{
    let n: u32 = c as u32;
    (0x9 <= n && n <= 0xd) || n == 0x20 || n == 0x85 || n == 0xa0 || n == 0x1680 || (0x2000 <= n
        && n <= 0x200a) || n == 0x2028 || n == 0x2029 || n == 0x202f || n == 0x205f || n == 0x3000
}

/// `s` without the white space around it.
pub fn trimmed(s: &[char]) -> (out: Vec<char>)
    ensures
        out@ == trim(s@),
{
    let mut from: usize = 0;
    assert(s@.skip(0) =~= s@);
    while from < s.len() && is_whitespace(s[from])
        invariant
            from <= s.len(),
            trim_start(s@) == trim_start(s@.skip(from as int)),
        decreases s.len() - from,
    {
        proof {
            assert(s@.skip(from as int).skip(1) =~= s@.skip(from + 1));
        }
        from = from + 1;
    }
    let mut to: usize = s.len();
    proof {
        assert(trim_start(s@) == s@.skip(from as int));
        assert(s@.subrange(from as int, to as int) =~= s@.skip(from as int));
    }
    while from < to && is_whitespace(s[to - 1])
        invariant
            from <= to <= s.len(),
            trim(s@) == trim_end(s@.subrange(from as int, to as int)),
        decreases to - from,
    {
        proof {
            assert(s@.subrange(from as int, to as int).drop_last() =~= s@.subrange(
                from as int,
                to - 1,
            ));
        }
        to = to - 1;
    }
    copy_range(s, from, to)
}

/// The characters of `s` from `from` up to `to`.
pub fn copy_range(s: &[char], from: usize, to: usize) -> (out: Vec<char>)
    requires
        from <= to <= s.len(),
    ensures
        out@ == s@.subrange(from as int, to as int),
{
    let mut out: Vec<char> = Vec::new();
    let mut i: usize = from;
    while i < to
        invariant
            from <= i <= to <= s.len(),
            out@ == s@.subrange(from as int, i as int),
        decreases to - i,
    {
        out.push(s[i]);
        proof {
            assert(s@.subrange(from as int, i + 1) =~= s@.subrange(from as int, i as int).push(
                s@[i as int],
            ));
        }
        i = i + 1;
    }
    out
}

/// `s` without the white space around it, as text.
pub fn trimmed_text(s: &str) -> (out: String)
    ensures
        out@ == trim(s@),
{
    let chars = chars_of(s);
    let kept = trimmed(&chars);
    text_of(&kept)
}

/// `s` without any copies of `c` at its end.
pub fn trimmed_end_of(s: &[char], c: char) -> (out: Vec<char>)
    ensures
        out@ == trim_end_of(s@, c),
{
    let mut to: usize = s.len();
    assert(s@.take(to as int) =~= s@);
    while 0 < to && s[to - 1] == c
        invariant
            to <= s.len(),
            trim_end_of(s@, c) == trim_end_of(s@.take(to as int), c),
        decreases to,
    {
        proof {
            assert(s@.take(to as int).drop_last() =~= s@.take(to - 1));
        }
        to = to - 1;
    }
    assert(s@.take(to as int) =~= s@.subrange(0, to as int));
    copy_range(s, 0, to)
}

/// The pieces of `s` between the occurrences of `separator`.
pub fn split_on(s: &[char], separator: char) -> (out: Vec<Vec<char>>)
    ensures
        views(out@) == split(s@, separator),
        out@.len() >= 1,
{
    let mut out: Vec<Vec<char>> = Vec::new();
    let mut piece: Vec<char> = Vec::new();
    let mut i: usize = 0;
    proof {
        assert(s@.take(0) =~= Seq::<char>::empty());
        assert(views(out@).push(piece@) =~= seq![s@.take(0)]);
    }
    while i < s.len()
        invariant
            i <= s.len(),
            views(out@).push(piece@) == split(s@.take(i as int), separator),
        decreases s.len() - i,
    {
        let ghost before = split(s@.take(i as int), separator);
        proof {
            assert(s@.take(i + 1).drop_last() =~= s@.take(i as int));
            assert(s@.take(i + 1).last() == s@[i as int]);
            assert(before.last() == piece@);
            assert(before.drop_last() =~= views(out@));
        }
        if s[i] == separator {
            let ghost earlier = out@;
            out.push(piece);
            piece = Vec::new();
            proof {
                assert(views(out@) =~= before);
                assert(piece@ =~= Seq::<char>::empty());
            }
        } else {
            piece.push(s[i]);
        }
        i = i + 1;
    }
    assert(s@.take(s@.len() as int) =~= s@);
    let ghost last = piece@;
    let ghost earlier = views(out@);
    out.push(piece);
    assert(views(out@) =~= earlier.push(last));
    out
}

/// The lines of `s`.
pub fn split_lines(s: &[char]) -> (out: Vec<Vec<char>>)
    ensures
        views(out@) == lines(s@),
{
    let pieces = split_on(s, '\n');
    let mut out: Vec<Vec<char>> = Vec::new();
    let last: usize = pieces.len() - 1;
    let mut i: usize = 0;
    while i < last
        invariant
            i <= last,
            last + 1 == pieces@.len(),
            views(out@) == views(pieces@).take(i as int).map_values(
                |line: Seq<char>| without_return(line),
            ),
        decreases last - i,
    {
        let piece = &pieces[i];
        let mut to: usize = piece.len();
        if to > 0 && piece[to - 1] == '\r' {
            to = to - 1;
        }
        let line = copy_range(piece, 0, to);
        assert(line@ =~= without_return(piece@));
        let ghost earlier = views(out@);
        out.push(line);
        proof {
            assert(views(out@) =~= earlier.push(without_return(views(pieces@)[i as int])));
            assert(views(pieces@).take(i + 1) =~= views(pieces@).take(i as int).push(
                views(pieces@)[i as int],
            ));
            assert(views(out@) =~= views(pieces@).take(i + 1).map_values(
                |line: Seq<char>| without_return(line),
            ));
        }
        i = i + 1;
    }
    proof {
        assert(views(pieces@).drop_last() =~= views(pieces@).take(last as int));
        assert(views(pieces@).last() == pieces@[last as int]@);
    }
    if pieces[last].len() > 0 {
        let line = copy_range(&pieces[last], 0, pieces[last].len());
        assert(line@ =~= pieces@[last as int]@);
        let ghost earlier = views(out@);
        out.push(line);
        assert(views(out@) =~= earlier.push(pieces@[last as int]@));
    }
    out
}

/// The words of `s`.
pub fn split_words(s: &[char]) -> (out: Vec<Vec<char>>)
    ensures
        views(out@) == words(s@),
{
    let mut out: Vec<Vec<char>> = Vec::new();
    let mut i: usize = 0;
    assert(views(out@) =~= words(s@.take(0)));
    while i < s.len()
        invariant
            i <= s.len(),
            views(out@) == words(s@.take(i as int)),
        decreases s.len() - i,
    {
        let ghost before = words(s@.take(i as int));
        proof {
            assert(s@.take(i + 1).drop_last() =~= s@.take(i as int));
            assert(s@.take(i + 1).last() == s@[i as int]);
            lemma_words_nonempty(s@.take(i as int));
        }
        if !is_whitespace(s[i]) {
            if i > 0 && !is_whitespace(s[i - 1]) {
                assert(s@.take(i as int).last() == s@[i - 1]);
                match out.pop() {
                    Some(mut word) => {
                        word.push(s[i]);
                        out.push(word);
                        proof {
                            assert(views(out@) =~= before.drop_last().push(
                                before.last().push(s@[i as int]),
                            ));
                        }
                    },
                    None => {
                        assert(false);
                    },
                }
            } else {
                let mut word: Vec<char> = Vec::new();
                word.push(s[i]);
                assert(word@ =~= seq![s@[i as int]]);
                out.push(word);
                assert(views(out@) =~= before.push(seq![s@[i as int]]));
            }
        }
        i = i + 1;
    }
    assert(s@.take(s@.len() as int) =~= s@);
    out
}

/// The items of `parts` with `separator` in between.
pub fn join(parts: &Vec<String>, separator: &str) -> (out: String)
    ensures
        out@ == joined(views(parts@), separator@),
{
    let mut out: String = String::new();
    let mut i: usize = 0;
    assert(views(parts@).take(0) =~= Seq::<Seq<char>>::empty());
    while i < parts.len()
        invariant
            i <= parts@.len(),
            out@ == joined(views(parts@).take(i as int), separator@),
        decreases parts.len() - i,
    {
        let ghost taken = views(parts@).take(i + 1);
        proof {
            assert(taken.drop_last() =~= views(parts@).take(i as int));
            assert(taken.last() == parts@[i as int]@);
        }
        if i > 0 {
            out.append(separator);
        }
        out.append(parts[i].as_str());
        proof {
            if i == 0 {
                assert(out@ =~= parts@[0]@);
            }
        }
        i = i + 1;
    }
    assert(views(parts@).take(parts@.len() as int) =~= views(parts@));
    out
}

/// `n` in decimal.
pub fn decimal_text(n: u64) -> (out: String)
    ensures
        out@ == decimal(n as nat),
    decreases n,
{
    let mut out: String = String::new();
    if n >= 10 {
        out = decimal_text(n / 10);
    }
    let rest: u8 = (n % 10) as u8;
    push_char(&mut out, (48 + rest) as char);
    assert(out@ =~= decimal(n as nat));
    out
}

pub fn ascii_digit(c: char) -> (yes: bool)
    ensures
        yes == is_ascii_digit(c),
{
    '0' <= c && c <= '9'
}

pub fn ascii_alphanumeric(c: char) -> (yes: bool)
    ensures
        yes == is_ascii_alphanumeric(c),
{
    ('0' <= c && c <= '9') || ('A' <= c && c <= 'Z') || ('a' <= c && c <= 'z')
}

/// `s` with its ASCII letters in lower case.
pub fn to_ascii_lowercase(s: &[char]) -> (out: Vec<char>)
    ensures
        out@ == ascii_lowercase(s@),
{
    let mut out: Vec<char> = Vec::new();
    let mut i: usize = 0;
    while i < s.len()
        invariant
            i <= s.len(),
            out@.len() == i,
            forall|k: int| 0 <= k < i ==> out@[k] == ascii_lower(s@[k]),
        decreases s.len() - i,
    {
        let c = s[i];
        if 'A' <= c && c <= 'Z' {
            out.push((c as u8 + 32) as char);
        } else {
            out.push(c);
        }
        i = i + 1;
    }
    assert(out@ =~= ascii_lowercase(s@));
    out
}

/// Compares two sequences of characters in sorting order.
pub fn rank(a: &[char], b: &[char]) -> (r: Rank)
    ensures
        r == Rank::Before <==> sorts_before(a@, b@),
        r == Rank::Same <==> a@ == b@,
        r == Rank::After <==> sorts_before(b@, a@),
{
    let mut i: usize = 0;
    proof {
        assert(a@.skip(0) =~= a@);
        assert(b@.skip(0) =~= b@);
        lemma_sorts_before_irreflexive(a@);
    }
    while i < a.len() && i < b.len() && a[i] == b[i]
        invariant
            i <= a.len(),
            i <= b.len(),
            a@.take(i as int) == b@.take(i as int),
            sorts_before(a@, b@) == sorts_before(a@.skip(i as int), b@.skip(i as int)),
            sorts_before(b@, a@) == sorts_before(b@.skip(i as int), a@.skip(i as int)),
        decreases a.len() - i,
    {
        proof {
            assert(a@.skip(i as int).skip(1) =~= a@.skip(i + 1));
            assert(b@.skip(i as int).skip(1) =~= b@.skip(i + 1));
            assert(a@.take(i + 1) =~= a@.take(i as int).push(a@[i as int]));
            assert(b@.take(i + 1) =~= b@.take(i as int).push(b@[i as int]));
        }
        i = i + 1;
    }
    if i == a.len() && i == b.len() {
        assert(a@ =~= a@.take(i as int));
        assert(b@ =~= b@.take(i as int));
        Rank::Same
    } else if i == a.len() {
        Rank::Before
    } else if i == b.len() {
        Rank::After
    } else if a[i] < b[i] {
        Rank::Before
    } else {
        Rank::After
    }
}

/// The distinct ones of `names`, sorted.
pub fn sorted_names(names: &Vec<String>) -> (out: Vec<String>)
    ensures
        strictly_sorted(views(out@)),
        forall|name: Seq<char>| #[trigger]
            views(out@).contains(name) <==> views(names@).contains(name),
{
    let mut out: Vec<String> = Vec::new();
    let ghost all = views(names@);
    let mut i: usize = 0;
    while i < names.len()
        invariant
            i <= names@.len(),
            all == views(names@),
            strictly_sorted(views(out@)),
            forall|name: Seq<char>| #[trigger]
                views(out@).contains(name) <==> all.take(i as int).contains(name),
        decreases names.len() - i,
    {
        let ghost seen = all.take(i as int);
        let ghost more = all.take(i + 1);
        let ghost name = names@[i as int]@;
        proof {
            assert(more =~= seen.push(name));
            lemma_contains_push(seen, name);
        }
        insert_name(&mut out, &names[i]);
        i = i + 1;
    }
    assert(all.take(all.len() as int) =~= all);
    out
}

proof fn lemma_contains_push(s: Seq<Seq<char>>, x: Seq<char>)
    ensures
        forall|y: Seq<char>| #[trigger] s.push(x).contains(y) <==> (s.contains(y) || y == x),
{
    assert forall|y: Seq<char>| #[trigger] s.push(x).contains(y) <==> (s.contains(y) || y == x) by {
        if s.contains(y) {
            let k = choose|k: int| 0 <= k < s.len() && s[k] == y;
            assert(s.push(x)[k] == y);
        }
        if y == x {
            assert(s.push(x)[s.len() as int] == y);
        }
    }
}

/// Puts `name` in its place among sorted names, unless it is there already.
fn insert_name(out: &mut Vec<String>, name: &str)
    requires
        strictly_sorted(views(old(out)@)),
    ensures
        strictly_sorted(views(final(out)@)),
        forall|y: Seq<char>| #[trigger]
            views(final(out)@).contains(y) <==> (views(old(out)@).contains(y) || y == name@),
{
    let ghost before = views(out@);
    let chars = chars_of(name);
    let mut at: usize = out.len();
    while at > 0
        invariant
            at <= out@.len(),
            before == views(out@),
            before == views(old(out)@),
            strictly_sorted(before),
            chars@ == name@,
            forall|k: int| at <= k < before.len() ==> sorts_before(name@, #[trigger] before[k]),
        ensures
            at <= out@.len(),
            before == views(out@),
            forall|k: int| at <= k < before.len() ==> sorts_before(name@, #[trigger] before[k]),
            at > 0 ==> sorts_before(before[at - 1], name@),
        decreases at,
    {
        assert(before[at - 1] == out@[at - 1]@);
        match rank(&chars, &chars_of(&out[at - 1])) {
            Rank::Before => {
                at = at - 1;
            },
            Rank::Same => {
                assert(before.contains(name@)) by {
                    assert(before[at - 1] == name@);
                }
                return;
            },
            Rank::After => {
                break;
            },
        }
    }
    out.insert(at, name.to_owned());
    proof {
        let after = views(out@);
        assert(after =~= before.insert(at as int, name@));
        assert forall|i: int, j: int| 0 <= i < j < after.len() implies sorts_before(
            #[trigger] after[i],
            #[trigger] after[j],
        ) by {
            if j == at {
                assert(after[i] == before[i]);
                if i < at - 1 {
                    lemma_sorts_before_transitive(before[i], before[at - 1], name@);
                }
            } else if i == at {
                assert(after[j] == before[j - 1]);
            } else {
                let x = if i < at {
                    i
                } else {
                    i - 1
                };
                let y = if j < at {
                    j
                } else {
                    j - 1
                };
                assert(after[i] == before[x] && after[j] == before[y]);
            }
        }
        assert forall|y: Seq<char>| #[trigger] after.contains(y) <==> (before.contains(y) || y
            == name@) by {
            if before.contains(y) {
                let k = choose|k: int| 0 <= k < before.len() && before[k] == y;
                if k < at {
                    assert(after[k] == y);
                } else {
                    assert(after[k + 1] == y);
                }
            }
            if y == name@ {
                assert(after[at as int] == y);
            }
            if after.contains(y) {
                let k = choose|k: int| 0 <= k < after.len() && after[k] == y;
                if k < at {
                    assert(before[k] == y);
                } else if k > at {
                    assert(before[k - 1] == y);
                }
            }
        }
    }
}

/// Names that are strictly sorted are in order, and each occurs once.
pub proof fn lemma_strictly_sorted(names: Seq<Seq<char>>, i: int, j: int)
    requires
        strictly_sorted(names),
        0 <= i < j < names.len(),
    ensures
        sorts_before(names[i], names[j]),
        names[i] != names[j],
{
    lemma_sorts_before_irreflexive(names[i]);
}

} // verus!
