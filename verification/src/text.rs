//! Text: numbers in decimal, trimming, searching.
use vstd::prelude::*;

verus! {

/// The decimal digit of `d`.
pub open spec fn digit(d: int) -> char {
    (48 + d) as char
}

/// `n` in decimal.
pub open spec fn decimal(n: nat) -> Seq<char>
    decreases n,
{
    if n < 10 {
        seq![digit(n as int)]
    } else {
        decimal(n / 10).push(digit((n % 10) as int))
    }
}

/// `n` in decimal, with zeros in front up to `width`.
pub open spec fn padded(n: nat, width: nat) -> Seq<char> {
    let plain = decimal(n);
    if plain.len() < width {
        Seq::new((width - plain.len()) as nat, |i: int| '0') + plain
    } else {
        plain
    }
}

/// `s` with spaces behind it up to `width`.
pub open spec fn left_aligned(s: Seq<char>, width: nat) -> Seq<char> {
    if s.len() < width {
        s + Seq::new((width - s.len()) as nat, |i: int| ' ')
    } else {
        s
    }
}

/// `s` with spaces in front of it up to `width`.
pub open spec fn right_aligned(s: Seq<char>, width: nat) -> Seq<char> {
    if s.len() < width {
        Seq::new((width - s.len()) as nat, |i: int| ' ') + s
    } else {
        s
    }
}

/// Texts one after the other, with a piece before, between and behind them.
pub open spec fn interleaved(pieces: Seq<&str>, values: Seq<Seq<char>>) -> Seq<char>
    decreases pieces.len(),
{
    if pieces.len() == 0 {
        Seq::empty()
    } else if pieces.len() == 1 {
        pieces[0]@
    } else {
        interleaved(pieces.drop_last(), values.drop_last()) + values.last() + pieces.last()@
    }
}

/// Texts with a comma between two of them.
pub open spec fn comma_separated(values: Seq<Seq<char>>) -> Seq<char>
    decreases values.len(),
{
    if values.len() == 0 {
        Seq::empty()
    } else if values.len() == 1 {
        values[0]
    } else {
        comma_separated(values.drop_last()) + ","@ + values.last()
    }
}

/// The contents of a list of texts.
pub open spec fn texts(list: Seq<String>) -> Seq<Seq<char>> {
    list.map_values(|s: String| s@)
}

/// Whether a character is white space.
pub open spec fn is_space(c: char) -> bool {
    let n = c as int;
    9 <= n <= 13 || n == 32 || n == 0x85 || n == 0xa0 || n == 0x1680 || 0x2000 <= n <= 0x200a || n
        == 0x2028 || n == 0x2029 || n == 0x202f || n == 0x205f || n == 0x3000
}

/// How many characters of white space a text begins with.
pub open spec fn leading_spaces(s: Seq<char>) -> nat
    decreases s.len(),
{
    if s.len() == 0 || !is_space(s[0]) {
        0
    } else {
        1 + leading_spaces(s.skip(1))
    }
}

/// How many characters are left when the white space behind a text is cut off.
pub open spec fn without_trailing(s: Seq<char>) -> nat
    decreases s.len(),
{
    if s.len() == 0 || !is_space(s.last()) {
        s.len()
    } else {
        without_trailing(s.drop_last())
    }
}

/// A text without the white space around it.
pub open spec fn trimmed(s: Seq<char>) -> Seq<char> {
    let end = without_trailing(s);
    let start = leading_spaces(s.take(end as int));
    s.subrange(start as int, end as int)
}

/// Whether `part` occurs in `s`.
pub open spec fn contains_text(s: Seq<char>, part: Seq<char>) -> bool {
    exists|i: int|
        0 <= i && i + part.len() <= s.len() && #[trigger] s.subrange(i, i + part.len()) == part
}

/// Whether two texts are the same.
pub fn same_text(a: &str, b: &str) -> (r: bool)
    ensures
        r == (a@ == b@),
{
    a.to_owned() == b.to_owned()
}

/// The characters of a text.
pub fn characters(s: &str) -> (r: Vec<char>)
    ensures
        r@ == s@,
{
    let mut r: Vec<char> = Vec::new();
    for c in it: s.chars()
        invariant
            r@ == s@.take(it.index() as int),
            it.seq() == s@,
    {
        r.push(c);
        assert(r@ =~= s@.take(it.index() + 1));
    }
    assert(r@ =~= s@);
    r
}

fn put_digit(out: &mut String, d: u8)
    requires
        d < 10,
    ensures
        final(out)@ == old(out)@.push(digit(d as int)),
{
    proof {
        reveal_strlit("0");
        reveal_strlit("1");
        reveal_strlit("2");
        reveal_strlit("3");
        reveal_strlit("4");
        reveal_strlit("5");
        reveal_strlit("6");
        reveal_strlit("7");
        reveal_strlit("8");
        reveal_strlit("9");
    }
    let text: &str = if d == 0 {
        "0"
    } else if d == 1 {
        "1"
    } else if d == 2 {
        "2"
    } else if d == 3 {
        "3"
    } else if d == 4 {
        "4"
    } else if d == 5 {
        "5"
    } else if d == 6 {
        "6"
    } else if d == 7 {
        "7"
    } else if d == 8 {
        "8"
    } else {
        "9"
    };
    assert(text@ =~= seq![digit(d as int)]);
    out.append(text);
    assert(out@ =~= old(out)@.push(digit(d as int)));
}

/// Writes `n` in decimal.
pub fn put_decimal(out: &mut String, n: u64)
    ensures
        final(out)@ == old(out)@ + decimal(n as nat),
    decreases n,
{
    if n < 10 {
        put_digit(out, n as u8);
        assert(out@ =~= old(out)@ + decimal(n as nat));
    } else {
        put_decimal(out, n / 10);
        put_digit(out, (n % 10) as u8);
        assert(out@ =~= old(out)@ + decimal(n as nat));
    }
}

/// Writes `n` in decimal, with zeros in front up to `width`.
pub fn put_padded(out: &mut String, n: u64, width: usize)
    ensures
        final(out)@ == old(out)@ + padded(n as nat, width as nat),
{
    let plain: String = decimal_text(n);
    let count: usize = plain.as_str().unicode_len();
    let mut i: usize = count;
    let ghost zeros = |k: nat| Seq::new(k, |i: int| '0');
    assert(out@ =~= old(out)@ + zeros(0));
    while i < width
        invariant
            count <= i,
            i <= width || i == count,
            zeros == (|k: nat| Seq::new(k, |i: int| '0')),
            out@ == old(out)@ + zeros((i - count) as nat),
        decreases width - i,
    {
        put_digit(out, 0);
        i += 1;
        assert(out@ =~= old(out)@ + zeros((i - count) as nat));
    }
    out.append(plain.as_str());
    assert(out@ =~= old(out)@ + padded(n as nat, width as nat));
}

/// `n` in decimal.
pub fn decimal_text(n: u64) -> (r: String)
    ensures
        r@ == decimal(n as nat),
{
    let mut r: String = String::new();
    put_decimal(&mut r, n);
    assert(r@ =~= decimal(n as nat));
    r
}

/// Writes `s` with spaces behind it up to `width`.
pub fn put_left_aligned(out: &mut String, s: &str, width: usize)
    ensures
        final(out)@ == old(out)@ + left_aligned(s@, width as nat),
{
    let count: usize = s.unicode_len();
    out.append(s);
    let ghost front = old(out)@ + s@;
    let ghost spaces = |k: nat| Seq::new(k, |i: int| ' ');
    assert(out@ =~= front + spaces(0));
    let mut i: usize = count;
    while i < width
        invariant
            count <= i,
            i <= width || i == count,
            spaces == (|k: nat| Seq::new(k, |i: int| ' ')),
            out@ == front + spaces((i - count) as nat),
        decreases width - i,
    {
        proof {
            reveal_strlit(" ");
        }
        out.append(" ");
        i += 1;
        assert(out@ =~= front + spaces((i - count) as nat));
    }
    assert(out@ =~= old(out)@ + left_aligned(s@, width as nat));
}

/// `n` in decimal, with spaces in front up to `width`.
pub fn aligned_decimal(n: u64, width: usize) -> (r: String)
    ensures
        r@ == right_aligned(decimal(n as nat), width as nat),
{
    let plain: String = decimal_text(n);
    let count: usize = plain.as_str().unicode_len();
    let mut r: String = String::new();
    let ghost spaces = |k: nat| Seq::new(k, |i: int| ' ');
    assert(r@ =~= spaces(0));
    let mut i: usize = count;
    while i < width
        invariant
            count <= i,
            i <= width || i == count,
            spaces == (|k: nat| Seq::new(k, |i: int| ' ')),
            r@ == spaces((i - count) as nat),
        decreases width - i,
    {
        proof {
            reveal_strlit(" ");
        }
        r.append(" ");
        i += 1;
        assert(r@ =~= spaces((i - count) as nat));
    }
    r.append(plain.as_str());
    assert(r@ =~= right_aligned(decimal(n as nat), width as nat));
    r
}

/// Texts one after the other, with a piece before, between and behind them.
pub fn interleave(pieces: &Vec<&str>, values: &Vec<String>) -> (r: String)
    requires
        pieces@.len() == values@.len() + 1,
    ensures
        r@ == interleaved(pieces@, texts(values@)),
{
    let mut r: String = pieces[0].to_owned();
    let mut i: usize = 0;
    assert(pieces@.take(1)[0] == pieces@[0]);
    while i < values.len()
        invariant
            i <= values.len(),
            pieces@.len() == values@.len() + 1,
            r@ == interleaved(pieces@.take(i + 1), texts(values@).take(i as int)),
        decreases values.len() - i,
    {
        r.append(values[i].as_str());
        r.append(pieces[i + 1]);
        assert(pieces@.take(i + 2).drop_last() =~= pieces@.take(i + 1));
        assert(texts(values@).take(i + 1).drop_last() =~= texts(values@).take(i as int));
        i += 1;
    }
    assert(pieces@.take(i + 1) =~= pieces@);
    assert(texts(values@).take(i as int) =~= texts(values@));
    r
}

/// Texts with a comma between two of them.
pub fn comma_row(values: &Vec<String>) -> (r: String)
    ensures
        r@ == comma_separated(texts(values@)),
{
    let mut r: String = String::new();
    let mut i: usize = 0;
    assert(texts(values@).take(0) =~= Seq::empty());
    while i < values.len()
        invariant
            i <= values.len(),
            r@ == comma_separated(texts(values@).take(i as int)),
        decreases values.len() - i,
    {
        if i > 0 {
            r.append(",");
        }
        r.append(values[i].as_str());
        assert(texts(values@).take(i + 1).drop_last() =~= texts(values@).take(i as int));
        assert(r@ =~= comma_separated(texts(values@).take(i + 1)));
        i += 1;
    }
    assert(texts(values@).take(i as int) =~= texts(values@));
    r
}

/// Appends `more` to `items`.
pub fn add_items(items: &mut Vec<String>, more: &Vec<String>)
    ensures
        texts(final(items)@) == texts(old(items)@) + texts(more@),
{
    let ghost front = texts(items@);
    let mut i: usize = 0;
    assert(front + texts(more@).take(0) =~= front);
    while i < more.len()
        invariant
            i <= more.len(),
            texts(items@) == front + texts(more@).take(i as int),
        decreases more.len() - i,
    {
        let item: String = more[i].clone();
        let ghost so_far = texts(items@);
        items.push(item);
        i += 1;
        assert(texts(items@) =~= so_far.push(item@));
        assert(texts(items@) =~= front + texts(more@).take(i as int));
    }
    assert(texts(more@).take(i as int) =~= texts(more@));
}

fn space(c: char) -> (r: bool)
    ensures
        r == is_space(c),
{
    let n: u32 = c as u32;
    (9 <= n && n <= 13) || n == 32 || n == 0x85 || n == 0xa0 || n == 0x1680 || (0x2000 <= n && n
        <= 0x200a) || n == 0x2028 || n == 0x2029 || n == 0x202f || n == 0x205f || n == 0x3000
}

/// A text without the white space around it.
pub fn trim(s: &str) -> (r: String)
    ensures
        r@ == trimmed(s@),
{
    let chars: Vec<char> = characters(s);
    let mut end: usize = chars.len();
    assert(s@.take(end as int) =~= s@);
    while end > 0 && space(chars[end - 1])
        invariant
            end <= chars.len(),
            chars@ == s@,
            without_trailing(s@) == without_trailing(s@.take(end as int)),
        decreases end,
    {
        assert(s@.take(end as int).drop_last() =~= s@.take(end - 1));
        end -= 1;
    }
    let ghost body = s@.take(end as int);
    assert(without_trailing(s@) == end);
    let mut start: usize = 0;
    assert(body.skip(0) =~= body);
    while start < end && space(chars[start])
        invariant
            start <= end <= chars.len(),
            chars@ == s@,
            body == s@.take(end as int),
            leading_spaces(body) == start + leading_spaces(body.skip(start as int)),
        decreases end - start,
    {
        assert(body.skip(start as int).skip(1) =~= body.skip(start + 1));
        start += 1;
    }
    assert(leading_spaces(body) == start);
    s.substring_char(start, end).to_owned()
}

/// Whether `part` occurs in `s`.
pub fn has_text(s: &str, part: &str) -> (r: bool)
    ensures
        r == contains_text(s@, part@),
{
    let a: Vec<char> = characters(s);
    let b: Vec<char> = characters(part);
    if b.len() > a.len() {
        return false;
    }
    let mut i: usize = 0;
    while i <= a.len() - b.len()
        invariant
            b.len() <= a.len(),
            i <= a.len() - b.len() + 1,
            a@ == s@,
            b@ == part@,
            forall|k: int| 0 <= k < i ==> #[trigger] s@.subrange(k, k + part@.len()) != part@,
        decreases a.len() - b.len() + 1 - i,
    {
        let mut k: usize = 0;
        while k < b.len() && a[i + k] == b[k]
            invariant
                i + b.len() <= a.len(),
                k <= b.len(),
                forall|j: int| 0 <= j < k ==> a@[i + j] == #[trigger] b@[j],
            decreases b.len() - k,
        {
            k += 1;
        }
        if k == b.len() {
            assert(s@.subrange(i as int, i + part@.len()) =~= part@);
            return true;
        }
        assert(s@.subrange(i as int, i + part@.len())[k as int] != part@[k as int]);
        i += 1;
    }
    false
}

/// The number that a row of decimal digits stands for.
pub open spec fn number_of(s: Seq<char>) -> int
    decreases s.len(),
{
    if s.len() == 0 {
        0
    } else {
        10 * number_of(s.drop_last()) + (s.last() as int - 48)
    }
}

/// A number can be read off its digits.
pub proof fn law_decimal_is_read_back(n: nat)
    ensures
        number_of(decimal(n)) == n,
    decreases n,
{
    if n < 10 {
        let s = seq![digit(n as int)];
        assert(s.drop_last() =~= Seq::empty());
        assert(number_of(s.drop_last()) == 0);
    } else {
        law_decimal_is_read_back(n / 10);
        let front = decimal(n / 10);
        assert(decimal(n).drop_last() =~= front);
    }
}

/// A number can be read off its digits, zeros in front or not.
pub proof fn law_padded_is_read_back(n: nat, width: nat)
    ensures
        number_of(padded(n, width)) == n,
{
    law_decimal_is_read_back(n);
    if decimal(n).len() < width {
        lemma_zeros((width - decimal(n).len()) as nat, decimal(n));
    }
}

proof fn lemma_zeros(k: nat, s: Seq<char>)
    ensures
        number_of(Seq::new(k, |i: int| '0') + s) == number_of(s),
    decreases s.len() + k,
{
    let zeros = Seq::new(k, |i: int| '0');
    let whole = zeros + s;
    if s.len() > 0 {
        lemma_zeros(k, s.drop_last());
        assert(whole.drop_last() =~= zeros + s.drop_last());
    } else if k > 0 {
        let fewer = Seq::new((k - 1) as nat, |i: int| '0');
        lemma_zeros((k - 1) as nat, s);
        assert(whole.drop_last() =~= fewer + s);
    }
}

/// What stands between the same beginning and the same end is the same in equal texts.
pub proof fn lemma_same_middle(front: Seq<char>, a: Seq<char>, b: Seq<char>, back: Seq<char>)
    requires
        front + a + back == front + b + back,
    ensures
        a == b,
{
    let whole = front + a + back;
    assert(whole.len() == front.len() + a.len() + back.len());
    assert((front + b + back).len() == front.len() + b.len() + back.len());
    assert(whole.subrange(front.len() as int, (front.len() + a.len()) as int) =~= a);
    assert((front + b + back).subrange(front.len() as int, (front.len() + b.len()) as int) =~= b);
}

/// Trimming leaves nothing to trim.
pub proof fn law_trim_is_idempotent(s: Seq<char>)
    ensures
        trimmed(trimmed(s)) == trimmed(s),
{
    let t = trimmed(s);
    lemma_trailing(s);
    let body = s.take(without_trailing(s) as int);
    lemma_leading(body);
    if t.len() > 0 {
        assert(!is_space(t.last()));
        assert(!is_space(t[0]));
        assert(t.take(t.len() as int) =~= t);
    }
    assert(trimmed(t) =~= t);
}

proof fn lemma_trailing(s: Seq<char>)
    ensures
        without_trailing(s) <= s.len(),
        without_trailing(s) > 0 ==> !is_space(s[without_trailing(s) - 1]),
    decreases s.len(),
{
    if s.len() > 0 && is_space(s.last()) {
        lemma_trailing(s.drop_last());
    }
}

proof fn lemma_leading(s: Seq<char>)
    ensures
        leading_spaces(s) <= s.len(),
        leading_spaces(s) < s.len() ==> !is_space(s[leading_spaces(s) as int]),
    decreases s.len(),
{
    if s.len() > 0 && is_space(s[0]) {
        lemma_leading(s.skip(1));
    }
}

/// What `str::to_lowercase` makes of a text.
pub uninterp spec fn lowercased(s: Seq<char>) -> Seq<char>;

/// An ASCII text in lower case.
pub open spec fn ascii_lowercased(s: Seq<char>) -> Seq<char> {
    s.map_values(
        |c: char|
            if 'A' <= c <= 'Z' {
                (c as int + 32) as char
            } else {
                c
            },
    )
}

/// Calls `str::to_lowercase`, which maps a text by the Unicode tables of lower case. What it
/// makes of a text depends on the text alone. An ASCII text has its letters A to Z
/// replaced, character by character.
#[verifier::external_body]
pub(crate) fn to_lowercase(s: &str) -> (r: String)
    ensures
        r@ == lowercased(s@),
        vstd::utf8::is_ascii_chars(s@) ==> r@ == ascii_lowercased(s@),
{
    s.to_lowercase()
}

// ---------------------------------------------------------------------------
// Lines
// ---------------------------------------------------------------------------

/// Calls `String::from_utf8`: the text that bytes encode in UTF-8, `None` where they encode
/// none.
#[verifier::external_body]
pub(crate) fn decode_text(data: &[u8]) -> (r: Option<String>)
    ensures
        match r {
            Some(text) => vstd::utf8::valid_utf8(data@) && text@ == vstd::utf8::decode_utf8(data@),
            None => !vstd::utf8::valid_utf8(data@),
        },
{
    String::from_utf8(data.to_vec()).ok()
}

/// The text that bytes encode, `None` where they encode none.
pub open spec fn decoded(data: Seq<u8>) -> Option<Seq<char>> {
    if vstd::utf8::valid_utf8(data) {
        Some(vstd::utf8::decode_utf8(data))
    } else {
        None
    }
}

/// Where the line that begins at `from` breaks: at the next line feed, or at the end.
pub open spec fn break_from(data: Seq<u8>, from: int) -> int
    decreases data.len() - from,
{
    if from < 0 || from >= data.len() {
        data.len() as int
    } else if data[from] == 10 {
        from
    } else {
        break_from(data, from + 1)
    }
}

/// A line breaks where it begins or further on.
pub proof fn lemma_break_from(data: Seq<u8>, from: int)
    requires
        0 <= from <= data.len(),
    ensures
        from <= break_from(data, from) <= data.len(),
    decreases data.len() - from,
{
    if from < data.len() && data[from] != 10 {
        lemma_break_from(data, from + 1);
    }
}

/// The line that begins at `from`, without the line feed that ends it and the carriage
/// return before that.
pub open spec fn line_from(data: Seq<u8>, from: int) -> Seq<u8> {
    let at = break_from(data, from);
    if from < at < data.len() && data[at - 1] == 13 {
        data.subrange(from, at - 1)
    } else {
        data.subrange(from, at)
    }
}

/// The lines from `from` on. A line feed at the very end begins no line.
pub open spec fn lines_from(data: Seq<u8>, from: int) -> Seq<Seq<u8>>
    decreases data.len() + 1 - from,
{
    if from < 0 || from >= data.len() {
        Seq::empty()
    } else {
        proof {
            lemma_break_from(data, from);
        }
        seq![line_from(data, from)] + lines_from(data, break_from(data, from) + 1)
    }
}

/// Lines as bytes.
pub open spec fn byte_lists(lines: Seq<Vec<u8>>) -> Seq<Seq<u8>> {
    lines.map_values(|line: Vec<u8>| line@)
}

/// The lines of a file, as bytes.
pub fn byte_lines(data: &[u8]) -> (r: Vec<Vec<u8>>)
    ensures
        byte_lists(r@) == lines_from(data@, 0),
{
    let mut r: Vec<Vec<u8>> = Vec::new();
    let mut from: usize = 0;
    assert(byte_lists(r@) =~= Seq::empty());
    while from < data.len()
        invariant
            from <= data@.len(),
            byte_lists(r@) + lines_from(data@, from as int) == lines_from(data@, 0),
        decreases data.len() - from,
    {
        let mut line: Vec<u8> = Vec::new();
        let mut at: usize = from;
        proof {
            lemma_break_from(data@, from as int);
        }
        while at < data.len() && data[at] != 10
            invariant
                from <= at <= data@.len(),
                line@ == data@.subrange(from as int, at as int),
                break_from(data@, from as int) == break_from(data@, at as int),
            decreases data.len() - at,
        {
            line.push(data[at]);
            at += 1;
            assert(line@ =~= data@.subrange(from as int, at as int));
        }
        if from < at && at < data.len() && data[at - 1] == 13 {
            line.pop();
            assert(line@ =~= data@.subrange(from as int, at - 1));
        }
        assert(line@ == line_from(data@, from as int));
        let ghost front = byte_lists(r@);
        r.push(line);
        assert(byte_lists(r@) =~= front.push(line@));
        assert(front.push(line@) + lines_from(data@, at + 1) =~= front + lines_from(
            data@,
            from as int,
        ));
        if at == data.len() {
            assert(lines_from(data@, at + 1) =~= Seq::empty());
            assert(lines_from(data@, at as int) =~= Seq::empty());
            from = at;
        } else {
            from = at + 1;
        }
    }
    assert(byte_lists(r@) + lines_from(data@, from as int) =~= byte_lists(r@));
    r
}

/// The texts of lines, up to the first that is no text.
pub open spec fn readable(lines: Seq<Seq<u8>>) -> Seq<Seq<char>>
    decreases lines.len(),
{
    if lines.len() == 0 {
        Seq::empty()
    } else {
        match decoded(lines[0]) {
            Some(text) => seq![text] + readable(lines.skip(1)),
            None => Seq::empty(),
        }
    }
}

/// The lines of a file as texts, up to the first that is no text.
pub open spec fn text_lines(data: Seq<u8>) -> Seq<Seq<char>> {
    readable(lines_from(data, 0))
}

/// The lines of a file as texts, up to the first that is no text, and whether all are.
pub fn read_lines(data: &[u8]) -> (r: (Vec<String>, bool))
    ensures
        texts(r.0@) == text_lines(data@),
        r.1 == (text_lines(data@).len() == lines_from(data@, 0).len()),
{
    let lines: Vec<Vec<u8>> = byte_lines(data);
    let ghost all = lines_from(data@, 0);
    let mut r: Vec<String> = Vec::new();
    let mut i: usize = 0;
    assert(all.skip(0) =~= all);
    assert(texts(r@) =~= Seq::empty());
    assert(texts(r@) + readable(all) =~= readable(all));
    while i < lines.len()
        invariant
            i <= lines.len(),
            all == byte_lists(lines@),
            all == lines_from(data@, 0),
            r@.len() == i,
            texts(r@) + readable(all.skip(i as int)) == readable(all),
        decreases lines.len() - i,
    {
        assert(all.skip(i as int)[0] == lines@[i as int]@);
        assert(all.skip(i as int).skip(1) =~= all.skip(i + 1));
        match decode_text(lines[i].as_slice()) {
            Some(text) => {
                let ghost front = texts(r@);
                r.push(text);
                assert(texts(r@) =~= front.push(text@));
                i += 1;
                assert(texts(r@) + readable(all.skip(i as int)) =~= front + readable(
                    all.skip(i - 1),
                ));
            },
            None => {
                assert(texts(r@) + Seq::<Seq<char>>::empty() =~= texts(r@));
                return (r, false);
            },
        }
    }
    assert(all.skip(i as int) =~= Seq::empty());
    assert(texts(r@) + Seq::<Seq<char>>::empty() =~= texts(r@));
    (r, true)
}

/// Writing a line feed behind each line and reading the lines gives them back, where none
/// holds a line feed or ends in a carriage return.
pub proof fn law_lines_are_read_back(line: Seq<u8>, rest: Seq<u8>)
    requires
        forall|i: int| 0 <= i < line.len() ==> (#[trigger] line[i]) != 10,
        line.len() > 0 ==> line.last() != 13,
    ensures
        lines_from(line.push(10) + rest, 0) == seq![line] + lines_from(rest, 0),
{
    let data = line.push(10) + rest;
    lemma_break_at(data, 0, line.len() as int);
    assert(line_from(data, 0) =~= line);
    lemma_lines_shift(line.push(10), rest, 0);
}

proof fn lemma_break_at(data: Seq<u8>, from: int, at: int)
    requires
        0 <= from <= at < data.len(),
        data[at] == 10,
        forall|i: int| from <= i < at ==> (#[trigger] data[i]) != 10,
    ensures
        break_from(data, from) == at,
    decreases at - from,
{
    if from < at {
        assert(data[from] != 10);
        lemma_break_at(data, from + 1, at);
    }
}

proof fn lemma_break_shift(front: Seq<u8>, rest: Seq<u8>, from: int)
    requires
        0 <= from <= rest.len(),
    ensures
        break_from(front + rest, front.len() + from) == front.len() + break_from(rest, from),
    decreases rest.len() - from,
{
    if from < rest.len() {
        assert((front + rest)[front.len() + from] == rest[from]);
        if rest[from] != 10 {
            lemma_break_shift(front, rest, from + 1);
        }
    }
}

proof fn lemma_lines_shift(front: Seq<u8>, rest: Seq<u8>, from: int)
    requires
        0 <= from,
    ensures
        lines_from(front + rest, front.len() + from) == lines_from(rest, from),
    decreases rest.len() + 1 - from,
{
    if from < rest.len() {
        let data = front + rest;
        lemma_break_shift(front, rest, from);
        lemma_break_from(rest, from);
        let at = break_from(rest, from);
        assert(from < at ==> data[front.len() + at - 1] == rest[at - 1]);
        assert(line_from(data, front.len() + from) =~= line_from(rest, from));
        lemma_lines_shift(front, rest, at + 1);
    }
}

/// Texts one after the other.
pub open spec fn joined(parts: Seq<Seq<char>>) -> Seq<char>
    decreases parts.len(),
{
    if parts.len() == 0 {
        Seq::empty()
    } else {
        joined(parts.drop_last()) + parts.last()
    }
}

/// Joining keeps every part whole and in order: joining two lists is joining the first, then
/// the second.
pub proof fn law_joined_keeps_parts(a: Seq<Seq<char>>, b: Seq<Seq<char>>)
    ensures
        joined(a + b) == joined(a) + joined(b),
        a.len() == 1 ==> joined(a) == a[0],
    decreases b.len(),
{
    if a.len() == 1 {
        assert(a.drop_last() =~= Seq::empty());
        assert(joined(a.drop_last()) == Seq::<char>::empty());
        assert(joined(a) =~= a[0]);
    }
    if b.len() == 0 {
        assert(a + b =~= a);
        assert(joined(a) + joined(b) =~= joined(a));
    } else {
        assert((a + b).drop_last() =~= a + b.drop_last());
        law_joined_keeps_parts(a, b.drop_last());
        assert(joined(a + b) =~= joined(a) + joined(b));
    }
}

/// A number in decimal is made of digits, and begins with a zero only where it is zero.
pub proof fn law_decimal_is_plain(n: nat, i: int)
    ensures
        decimal(n).len() > 0,
        0 <= i < decimal(n).len() ==> '0' <= decimal(n)[i] <= '9',
        decimal(n)[0] == '0' ==> n == 0,
        n == 0 ==> decimal(n) == seq!['0'],
    decreases n,
{
    if n >= 10 {
        law_decimal_is_plain(n / 10, i);
        law_decimal_is_plain(n / 10, 0);
        assert(decimal(n)[0] == decimal(n / 10)[0]);
    }
}

/// Numbers that differ look different.
pub proof fn law_decimals_differ(a: nat, b: nat)
    ensures
        decimal(a) == decimal(b) <==> a == b,
{
    law_decimal_is_read_back(a);
    law_decimal_is_read_back(b);
}

/// Where two numbers are followed by the same character that is no digit, they can be told
/// apart: the shorter text is no beginning of the longer.
pub proof fn law_marked_decimals_differ(front: Seq<char>, a: nat, b: nat, mark: char, rest: Seq<char>)
    requires
        !('0' <= mark <= '9'),
        (front + decimal(a)).push(mark).is_prefix_of((front + decimal(b)).push(mark) + rest),
    ensures
        a == b,
{
    let x = decimal(a);
    let y = decimal(b);
    let one = (front + x).push(mark);
    let two = (front + y).push(mark) + rest;
    let f = front.len() as int;
    assert forall|i: int| 0 <= i < one.len() implies one[i] == #[trigger] two[i] by {}
    if x.len() < y.len() {
        assert(one[f + x.len()] == mark);
        assert(two[f + x.len()] == y[x.len() as int]);
        law_decimal_is_plain(b, x.len() as int);
    } else if y.len() < x.len() {
        assert(two[f + y.len()] == mark);
        assert(one[f + y.len()] == x[y.len() as int]);
        law_decimal_is_plain(a, y.len() as int);
    } else {
        assert forall|i: int| 0 <= i < x.len() implies x[i] == y[i] by {
            assert(one[f + i] == two[f + i]);
        }
        assert(x =~= y);
        law_decimals_differ(a, b);
    }
}

/// A padded number fills its width with zeros in front; a longer one is left as it is.
pub proof fn law_padding_fills(n: nat, width: nat, i: int)
    ensures
        padded(n, width).len() >= width,
        padded(n, width).len() >= decimal(n).len(),
        padded(n, width).len() == width || padded(n, width) == decimal(n),
        padded(n, width).skip(padded(n, width).len() - decimal(n).len()) == decimal(n),
        0 <= i < padded(n, width).len() - decimal(n).len() ==> padded(n, width)[i] == '0',
{
    let p = padded(n, width);
    assert(p.skip(p.len() - decimal(n).len()) =~= decimal(n));
}

/// An aligned text is the text itself, with spaces on its other side up to the width.
pub proof fn law_alignment_fills(s: Seq<char>, width: nat, i: int)
    ensures
        ({
            let l = left_aligned(s, width);
            let r = right_aligned(s, width);
            let n = if s.len() < width {
                width
            } else {
                s.len()
            };
            &&& l.len() == n
            &&& r.len() == n
            &&& l.take(s.len() as int) == s
            &&& r.skip(n - s.len()) == s
            &&& s.len() <= i < n ==> l[i] == ' '
            &&& 0 <= i < n - s.len() ==> r[i] == ' '
        }),
{
    let l = left_aligned(s, width);
    let r = right_aligned(s, width);
    assert(l.take(s.len() as int) =~= s);
    assert(r.skip(r.len() - s.len()) =~= s);
}

/// Fields are separated by one comma each: a row of two lists is the row of the first, a comma,
/// and the row of the second. One field alone is a row, and none is an empty one.
pub proof fn law_one_comma_between_fields(a: Seq<Seq<char>>, b: Seq<Seq<char>>)
    ensures
        a.len() == 0 ==> comma_separated(a) == Seq::<char>::empty(),
        a.len() == 1 ==> comma_separated(a) == a[0],
        a.len() > 0 && b.len() > 0 ==> comma_separated(a + b) == comma_separated(a) + seq![',']
            + comma_separated(b),
    decreases b.len(),
{
    reveal_strlit(",");
    assert(","@ =~= seq![',']);
    if a.len() > 0 && b.len() > 0 {
        let front = b.drop_last();
        assert((a + b).drop_last() =~= a + front);
        if front.len() == 0 {
            assert(a + front =~= a);
        } else {
            law_one_comma_between_fields(a, front);
        }
        assert(comma_separated(a + b) =~= comma_separated(a) + seq![','] + comma_separated(b));
    }
}

/// Trimming cuts off white space and nothing else: around the trimmed text there was only
/// white space, and it neither begins nor ends with any.
pub proof fn law_trimming_cuts_space_only(s: Seq<char>)
    ensures
        exists|start: int|
            0 <= start && start + trimmed(s).len() <= s.len() && trimmed(s) == #[trigger] s.subrange(
                start,
                start + trimmed(s).len(),
            ) && (forall|i: int|
                0 <= i < s.len() && !(start <= i < start + trimmed(s).len()) ==> is_space(
                    #[trigger] s[i],
                )),
        trimmed(s).len() > 0 ==> !is_space(trimmed(s)[0]) && !is_space(trimmed(s).last()),
{
    let end = without_trailing(s) as int;
    let body = s.take(end);
    let start = leading_spaces(body) as int;
    lemma_trailing(s);
    lemma_leading(body);
    lemma_trailing_spaces(s);
    lemma_leading_spaces(body);
    assert(trimmed(s) == s.subrange(start, end));
    assert forall|i: int| 0 <= i < s.len() && !(start <= i < end) implies is_space(#[trigger] s[i]) by {
        if i < start {
            assert(body[i] == s[i]);
        }
    }
    assert(trimmed(s) == s.subrange(start, start + trimmed(s).len()));
}

proof fn lemma_trailing_spaces(s: Seq<char>)
    ensures
        forall|i: int| without_trailing(s) <= i < s.len() ==> is_space(#[trigger] s[i]),
    decreases s.len(),
{
    if s.len() > 0 && is_space(s.last()) {
        let front = s.drop_last();
        lemma_trailing_spaces(front);
        assert forall|i: int| without_trailing(s) <= i < s.len() implies is_space(#[trigger] s[i]) by {
            if i < front.len() {
                assert(front[i] == s[i]);
            }
        }
    }
}

proof fn lemma_leading_spaces(s: Seq<char>)
    ensures
        forall|i: int| 0 <= i < leading_spaces(s) ==> is_space(#[trigger] s[i]),
    decreases s.len(),
{
    if s.len() > 0 && is_space(s[0]) {
        let rest = s.skip(1);
        lemma_leading_spaces(rest);
        lemma_leading(rest);
        assert forall|i: int| 0 <= i < leading_spaces(s) implies is_space(#[trigger] s[i]) by {
            if i > 0 {
                assert(rest[i - 1] == s[i]);
            }
        }
    }
}

/// What counts as white space: blanks and line ends, no letter and no digit.
pub proof fn law_letters_are_no_space(c: char)
    ensures
        c == ' ' || c == '\n' || c == '\t' || c == '\r' ==> is_space(c),
        '!' <= c <= '~' ==> !is_space(c),
{
}

/// Lower case changes capital letters only, each to its small one, and keeps the length.
pub proof fn law_lower_case_keeps_the_rest(s: Seq<char>, i: int)
    requires
        0 <= i < s.len(),
    ensures
        ascii_lowercased(s).len() == s.len(),
        !('A' <= s[i] <= 'Z') ==> ascii_lowercased(s)[i] == s[i],
        'A' <= s[i] <= 'Z' ==> ascii_lowercased(s)[i] as int - 'a' as int == s[i] as int
            - 'A' as int,
        ascii_lowercased(ascii_lowercased(s)) == ascii_lowercased(s),
{
    assert(ascii_lowercased(ascii_lowercased(s)) =~= ascii_lowercased(s));
}

/// Between any two pieces stands one value: pieces and values take turns, from the first piece
/// to the last.
pub proof fn law_pieces_stand_around_values(pieces: Seq<&str>, values: Seq<Seq<char>>)
    requires
        pieces.len() == values.len() + 1,
    ensures
        interleaved(pieces, values) == joined(
            Seq::new(
                2 * values.len() + 1,
                |i: int|
                    if i % 2 == 0 {
                        pieces[i / 2]@
                    } else {
                        values[i / 2]
                    },
            ),
        ),
    decreases values.len(),
{
    let turn = |i: int|
        if i % 2 == 0 {
            pieces[i / 2]@
        } else {
            values[i / 2]
        };
    let n = values.len();
    let all = Seq::new(2 * n + 1, turn);
    if n > 0 {
        let (p, v) = (pieces.drop_last(), values.drop_last());
        law_pieces_stand_around_values(p, v);
        let front = Seq::new(
            (2 * v.len() + 1) as nat,
            |i: int|
                if i % 2 == 0 {
                    p[i / 2]@
                } else {
                    v[i / 2]
                },
        );
        let most = all.drop_last();
        assert(most.drop_last() =~= front);
        assert(most.last() == values.last());
        assert(all.last() == pieces.last()@);
        assert(joined(most) == joined(front) + values.last());
        assert(joined(all) == joined(most) + pieces.last()@);
        assert(interleaved(pieces, values) == interleaved(p, v) + values.last() + pieces.last()@);
        assert(interleaved(p, v) == joined(front));
    } else {
        assert(all =~= seq![pieces[0]@]);
        law_joined_keeps_parts(all, Seq::empty());
    }
}

/// A line may end with a carriage return before its line feed, which is no part of it. The last
/// line needs no end, and then keeps what it ends with.
pub proof fn law_lines_end_in_either_way(line: Seq<u8>, rest: Seq<u8>)
    requires
        forall|i: int| 0 <= i < line.len() ==> (#[trigger] line[i]) != 10,
    ensures
        lines_from(line.push(13).push(10) + rest, 0) == seq![line] + lines_from(rest, 0),
        line.len() > 0 ==> lines_from(line, 0) == seq![line],
        lines_from(Seq::empty(), 0).len() == 0,
{
    let front = line.push(13).push(10);
    let data = front + rest;
    assert forall|i: int| 0 <= i < line.len() + 1 implies (#[trigger] data[i]) != 10 by {
        if i < line.len() {
            assert(data[i] == line[i]);
        }
    }
    lemma_break_at(data, 0, line.len() as int + 1);
    assert(line_from(data, 0) =~= line);
    lemma_lines_shift(front, rest, 0);
    if line.len() > 0 {
        lemma_no_break(line, 0);
        assert(line_from(line, 0) =~= line);
        assert(lines_from(line, line.len() as int + 1) =~= Seq::empty());
        assert(lines_from(line, 0) =~= seq![line]);
    }
}

proof fn lemma_no_break(line: Seq<u8>, from: int)
    requires
        0 <= from <= line.len(),
        forall|i: int| 0 <= i < line.len() ==> (#[trigger] line[i]) != 10,
    ensures
        break_from(line, from) == line.len(),
    decreases line.len() - from,
{
    if from < line.len() {
        assert(line[from] != 10);
        lemma_no_break(line, from + 1);
    }
}

/// Lines are read as text one after the other, up to the first that is no text.
pub proof fn law_reading_stops_at_what_is_no_text(lines: Seq<Seq<u8>>, more: Seq<Seq<u8>>, line: Seq<u8>)
    requires
        forall|i: int| 0 <= i < lines.len() ==> vstd::utf8::valid_utf8(#[trigger] lines[i]),
        !vstd::utf8::valid_utf8(line),
    ensures
        readable(lines).len() == lines.len(),
        forall|i: int|
            0 <= i < lines.len() ==> #[trigger] readable(lines)[i] == vstd::utf8::decode_utf8(lines[i]),
        readable(lines.push(line) + more) == readable(lines),
    decreases lines.len(),
{
    let all = lines.push(line) + more;
    if lines.len() > 0 {
        let rest = lines.skip(1);
        assert forall|i: int| 0 <= i < rest.len() implies vstd::utf8::valid_utf8(#[trigger] rest[i]) by {
            assert(rest[i] == lines[i + 1]);
        }
        law_reading_stops_at_what_is_no_text(rest, more, line);
        assert(all.skip(1) =~= rest.push(line) + more);
        assert(all[0] == lines[0]);
        assert(vstd::utf8::valid_utf8(lines[0]));
        assert forall|i: int| 0 <= i < lines.len() implies #[trigger] readable(lines)[i]
            == vstd::utf8::decode_utf8(lines[i]) by {
            if i > 0 {
                assert(readable(lines)[i] == readable(rest)[i - 1]);
                assert(rest[i - 1] == lines[i]);
            }
        }
    } else {
        assert(all[0] == line);
    }
}

/// These are the characters that count as white space, and there are no others.
pub proof fn law_what_is_space(c: char)
    ensures
        is_space(c) <==> c == '\t' || c == '\n' || c == '\u{b}' || c == '\u{c}' || c == '\r' || c
            == ' ' || c == '\u{85}' || c == '\u{a0}' || c == '\u{1680}' || '\u{2000}' <= c
            <= '\u{200a}' || c == '\u{2028}' || c == '\u{2029}' || c == '\u{202f}' || c
            == '\u{205f}' || c == '\u{3000}',
{
}

/// A text contains a part exactly where it is something, the part, and something more.
pub proof fn law_what_a_text_contains(s: Seq<char>, part: Seq<char>, front: Seq<char>, rest: Seq<char>)
    ensures
        contains_text(front + part + rest, part),
        contains_text(s, part) ==> exists|i: int|
            0 <= i <= s.len() && s == #[trigger] s.take(i) + part + s.skip(i + part.len()),
        part.len() > s.len() ==> !contains_text(s, part),
{
    let whole = front + part + rest;
    let at = front.len() as int;
    assert(whole.subrange(at, at + part.len()) =~= part);
    if contains_text(s, part) {
        let i = choose|i: int|
            0 <= i && i + part.len() <= s.len() && #[trigger] s.subrange(i, i + part.len()) == part;
        assert(s =~= s.take(i) + s.subrange(i, i + part.len()) + s.skip(i + part.len()));
        assert(s == s.take(i) + part + s.skip(i + part.len()));
    }
}

} // verus!
