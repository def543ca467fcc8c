//! The plain-text PPM image format: a header, then one or two physical lines
//! per pixel row, every line trimmed and ended by a newline.
use vstd::prelude::*;

use crate::text::{decimal, is_digit, lemma_decimal_digits, pixel_text, push_decimal, push_pixel, Rgb};

verus! {

/// A row whose text, trailing space included, is longer than this many
/// characters is split in two.
pub const LINE_LIMIT: usize = 70;

/// The text of a pixel row: each pixel's text followed by one space.
pub open spec fn row_text(ps: Seq<Rgb>) -> Seq<char>
    decreases ps.len(),
{
    if ps.len() == 0 {
        seq![]
    } else {
        row_text(ps.drop_last()) + pixel_text(ps.last()) + seq![' ']
    }
}

/// Index of the rightmost space among the first `k` characters of `s`, or -1.
pub open spec fn last_space_before(s: Seq<char>, k: int) -> int
    decreases k,
{
    if k <= 0 {
        -1
    } else if s[k - 1] == ' ' {
        k - 1
    } else {
        last_space_before(s, k - 1)
    }
}

/// `s` without its trailing spaces.
pub open spec fn trim_end(s: Seq<char>) -> Seq<char>
    decreases s.len(),
{
    if s.len() > 0 && s.last() == ' ' {
        trim_end(s.drop_last())
    } else {
        s
    }
}

/// `s` without its leading spaces.
pub open spec fn trim_start(s: Seq<char>) -> Seq<char>
    decreases s.len(),
{
    if s.len() > 0 && s[0] == ' ' {
        trim_start(s.drop_first())
    } else {
        s
    }
}

/// `s` without leading or trailing spaces.
pub open spec fn trim(s: Seq<char>) -> Seq<char> {
    trim_start(trim_end(s))
}

/// The physical lines of one pixel row. A row text longer than the limit is
/// split once, at the rightmost space among its first `LINE_LIMIT`
/// characters, and that space is dropped; each part is then trimmed.
pub open spec fn row_lines(ps: Seq<Rgb>) -> Seq<Seq<char>> {
    let t = row_text(ps);
    if t.len() > LINE_LIMIT {
        let i = last_space_before(t, LINE_LIMIT as int);
        seq![trim(t.subrange(0, i)), trim(t.subrange(i + 1, t.len() as int))]
    } else {
        seq![trim(t)]
    }
}

/// The pixels of row `y` of a row-major grid `width` pixels wide.
pub open spec fn row_of(pixels: Seq<Rgb>, width: nat, y: nat) -> Seq<Rgb> {
    pixels.subrange((y * width) as int, (y * width + width) as int)
}

/// The lines of the first `rows` pixel rows, top to bottom.
pub open spec fn body_lines(pixels: Seq<Rgb>, width: nat, rows: nat) -> Seq<Seq<char>>
    decreases rows,
{
    if rows == 0 {
        seq![]
    } else {
        body_lines(pixels, width, (rows - 1) as nat) + row_lines(
            row_of(pixels, width, (rows - 1) as nat),
        )
    }
}

/// The three header lines: the magic number, the size, the largest channel value.
pub open spec fn header_lines(width: nat, height: nat) -> Seq<Seq<char>> {
    seq![seq!['P', '3'], decimal(width) + seq![' '] + decimal(height), seq!['2', '5', '5']]
}

/// The lines joined by newlines, with one newline after the last.
pub open spec fn lines_text(lines: Seq<Seq<char>>) -> Seq<char>
    decreases lines.len(),
{
    if lines.len() == 0 {
        seq![]
    } else {
        lines_text(lines.drop_last()) + lines.last() + seq!['\n']
    }
}

/// The lines of the document for a `width` by `height` grid of pixels.
pub open spec fn ppm_lines(width: nat, height: nat, pixels: Seq<Rgb>) -> Seq<Seq<char>> {
    header_lines(width, height) + body_lines(pixels, width, height)
}

/// The whole document for a `width` by `height` grid of pixels, row-major.
pub open spec fn ppm_text(width: nat, height: nat, pixels: Seq<Rgb>) -> Seq<char> {
    lines_text(ppm_lines(width, height, pixels))
}

/// Joining two runs of lines gives the two texts one after the other.
proof fn lemma_lines_text_append(a: Seq<Seq<char>>, b: Seq<Seq<char>>)
    ensures
        lines_text(a + b) == lines_text(a) + lines_text(b),
    decreases b.len(),
{
    if b.len() == 0 {
        assert(a + b =~= a);
    } else {
        assert((a + b).drop_last() =~= a + b.drop_last());
        lemma_lines_text_append(a, b.drop_last());
    }
}

/// A single line is that line and a newline.
proof fn lemma_lines_text_one(line: Seq<char>)
    ensures
        lines_text(seq![line]) == line + seq!['\n'],
{
    assert(seq![line].drop_last() =~= Seq::<Seq<char>>::empty());
    assert(lines_text(Seq::<Seq<char>>::empty()) == Seq::<char>::empty());
    assert(lines_text(seq![line]) =~= line + seq!['\n']);
}

/// A channel value takes at most three digits.
proof fn lemma_channel_digits(n: u8)
    ensures
        decimal(n as nat).len() <= 3,
{
    reveal_with_fuel(decimal, 3);
}

/// A row text begins with the first pixel's red channel and a space.
proof fn lemma_first_space(ps: Seq<Rgb>)
    requires
        ps.len() > 0,
    ensures
        decimal(ps[0].r as nat).len() < row_text(ps).len(),
        row_text(ps)[decimal(ps[0].r as nat).len() as int] == ' ',
    decreases ps.len(),
{
    let d = decimal(ps[0].r as nat).len() as int;
    if ps.len() == 1 {
        assert(ps.drop_last() =~= Seq::<Rgb>::empty());
        assert(row_text(ps.drop_last()) == Seq::<char>::empty());
        assert(row_text(ps) =~= pixel_text(ps[0]) + seq![' ']);
        assert(pixel_text(ps[0])[d] == ' ');
    } else {
        assert(ps.drop_last()[0] == ps[0]);
        lemma_first_space(ps.drop_last());
    }
}

/// A space among the first `k` characters bounds the rightmost one from below.
proof fn lemma_space_found(s: Seq<char>, k: int, p: int)
    requires
        0 <= p < k <= s.len(),
        s[p] == ' ',
    ensures
        p <= last_space_before(s, k) < k,
    decreases k,
{
    if s[k - 1] != ' ' {
        lemma_space_found(s, k - 1, p);
    }
}

/// `trim_end` keeps a prefix that ends in no space and holds every non-space.
proof fn lemma_trim_end(s: Seq<char>)
    ensures
        trim_end(s).len() <= s.len(),
        trim_end(s) == s.subrange(0, trim_end(s).len() as int),
        trim_end(s).len() > 0 ==> trim_end(s).last() != ' ',
        forall|k: int| 0 <= k < s.len() && s[k] != ' ' ==> k < trim_end(s).len(),
    decreases s.len(),
{
    if s.len() > 0 && s.last() == ' ' {
        lemma_trim_end(s.drop_last());
        assert(trim_end(s) =~= s.subrange(0, trim_end(s).len() as int));
        assert forall|k: int| 0 <= k < s.len() && s[k] != ' ' implies k < trim_end(s).len() by {
            assert(k < s.len() - 1);
            assert(s.drop_last()[k] == s[k]);
        }
    } else {
        assert(s =~= s.subrange(0, s.len() as int));
    }
}

/// `trim_start` keeps a suffix that holds every non-space.
proof fn lemma_trim_start(s: Seq<char>)
    ensures
        trim_start(s).len() <= s.len(),
        trim_start(s) == s.subrange(s.len() - trim_start(s).len(), s.len() as int),
        forall|k: int| 0 <= k < s.len() && s[k] != ' ' ==> s.len() - trim_start(s).len() <= k,
    decreases s.len(),
{
    if s.len() > 0 && s[0] == ' ' {
        lemma_trim_start(s.drop_first());
        assert(trim_start(s) =~= s.subrange(
            s.len() - trim_start(s).len(),
            s.len() as int,
        ));
        assert forall|k: int| 0 <= k < s.len() && s[k] != ' ' implies s.len() - trim_start(
            s,
        ).len() <= k by {
            assert(s.drop_first()[k - 1] == s[k]);
        }
    } else {
        assert(s =~= s.subrange(0, s.len() as int));
    }
}

/// Trimming text with a non-space leaves a non-empty line that ends in a
/// character of the text other than a space.
proof fn lemma_trim_last(s: Seq<char>, k: int)
    requires
        0 <= k < s.len(),
        s[k] != ' ',
    ensures
        trim(s).len() > 0,
        trim(s).last() != ' ',
        exists|j: int| 0 <= j < s.len() && s[j] == trim(s).last(),
{
    let e = trim_end(s);
    lemma_trim_end(s);
    assert(e[k] == s[k]);
    lemma_trim_start(e);
    let t = trim_start(e);
    assert(t.last() == e.last());
    assert(s[e.len() - 1] == t.last());
}

/// A row text is digits and spaces; it ends in a space after a digit.
proof fn lemma_row_shape(ps: Seq<Rgb>)
    ensures
        forall|i: int|
            0 <= i < row_text(ps).len() ==> #[trigger] row_text(ps)[i] == ' ' || is_digit(
                row_text(ps)[i],
            ),
        ps.len() > 0 ==> row_text(ps).len() >= 2 && row_text(ps).last() == ' ' && is_digit(
            row_text(ps)[row_text(ps).len() - 2],
        ),
    decreases ps.len(),
{
    if ps.len() > 0 {
        let p = ps.last();
        let prev = row_text(ps.drop_last());
        let t = row_text(ps);
        lemma_row_shape(ps.drop_last());
        lemma_decimal_digits(p.r as nat);
        lemma_decimal_digits(p.g as nat);
        lemma_decimal_digits(p.b as nat);
        let px = pixel_text(p);
        assert forall|i: int| 0 <= i < px.len() implies px[i] == ' ' || is_digit(px[i]) by {
            let lr = decimal(p.r as nat).len() as int;
            let lg = decimal(p.g as nat).len() as int;
            if i < lr {
                assert(px[i] == decimal(p.r as nat)[i]);
            } else if i == lr {
            } else if i < lr + 1 + lg {
                assert(px[i] == decimal(p.g as nat)[i - lr - 1]);
            } else if i == lr + 1 + lg {
            } else {
                assert(px[i] == decimal(p.b as nat)[i - lr - lg - 2]);
            }
        }
        assert(px.last() == decimal(p.b as nat).last());
        assert forall|i: int| 0 <= i < t.len() implies t[i] == ' ' || is_digit(t[i]) by {
            if i < prev.len() {
                assert(t[i] == prev[i]);
            } else if i < prev.len() + px.len() {
                assert(t[i] == px[i - prev.len()]);
            }
        }
        assert(t[t.len() - 2] == px.last());
    }
}

/// The rightmost space found is a space among the first `k` characters.
proof fn lemma_space_is_space(s: Seq<char>, k: int)
    requires
        k <= s.len(),
        last_space_before(s, k) >= 0,
    ensures
        last_space_before(s, k) < k,
        s[last_space_before(s, k)] == ' ',
    decreases k,
{
    if k > 0 && s[k - 1] != ' ' {
        lemma_space_is_space(s, k - 1);
    }
}

/// The last line of a non-empty row is non-empty and ends in a digit.
proof fn lemma_row_last_line(ps: Seq<Rgb>)
    requires
        ps.len() > 0,
    ensures
        row_lines(ps).len() > 0,
        row_lines(ps).last().len() > 0,
        row_lines(ps).last().last() != '\n',
        row_lines(ps).last().last() != ' ',
{
    let t = row_text(ps);
    lemma_row_shape(ps);
    let n = t.len() as int;
    if t.len() > LINE_LIMIT {
        lemma_first_space(ps);
        lemma_channel_digits(ps[0].r);
        lemma_space_found(t, LINE_LIMIT as int, decimal(ps[0].r as nat).len() as int);
        let i = last_space_before(t, LINE_LIMIT as int);
        lemma_space_is_space(t, LINE_LIMIT as int);
        let rest = t.subrange(i + 1, n);
        assert(i + 1 <= n - 2);
        assert(rest[n - 2 - (i + 1)] == t[n - 2]);
        lemma_trim_last(rest, n - 2 - (i + 1));
        let j = choose|j: int| 0 <= j < rest.len() && rest[j] == trim(rest).last();
        assert(rest[j] == t[i + 1 + j]);
    } else {
        lemma_trim_last(t, n - 2);
        let j = choose|j: int| 0 <= j < t.len() && t[j] == trim(t).last();
        assert(t[j] == ' ' || is_digit(t[j]));
    }
}

/// The serialised document ends with exactly one newline: the last line
/// before it is never empty, when the rows hold pixels or there are no rows.
pub proof fn lemma_single_trailing_newline(width: nat, height: nat, pixels: Seq<Rgb>)
    requires
        pixels.len() == width * height,
        width > 0 || height == 0,
    ensures
        ({
            let t = ppm_text(width, height, pixels);
            &&& t.len() >= 2
            &&& t.last() == '\n'
            &&& t[t.len() - 2] != '\n'
        }),
{
    let lines = ppm_lines(width, height, pixels);
    let head = header_lines(width, height);
    if height == 0 {
        assert(body_lines(pixels, width, 0) == Seq::<Seq<char>>::empty());
        assert(lines =~= head);
        assert(lines.last() == seq!['2', '5', '5']);
    } else {
        let y = (height - 1) as nat;
        let row = row_of(pixels, width, y);
        assert(y * width + width <= width * height) by (nonlinear_arith)
            requires
                y + 1 == height,
        ;
        assert(row.len() == width);
        lemma_row_last_line(row);
        let body = body_lines(pixels, width, height);
        assert(body == body_lines(pixels, width, y) + row_lines(row));
        assert(body.last() == row_lines(row).last());
        assert(lines.last() == body.last());
    }
    let last = lines.last();
    let t = lines_text(lines);
    assert(t == lines_text(lines.drop_last()) + last + seq!['\n']);
    assert(t[t.len() - 2] == last.last());
}

/// Appends `s[lo..hi]` without its leading and trailing spaces.
fn push_trimmed(out: &mut Vec<char>, s: &Vec<char>, lo: usize, hi: usize)
    requires
        lo <= hi <= s.len(),
    ensures
        final(out)@ == old(out)@ + trim(s@.subrange(lo as int, hi as int)),
{
    let mut end: usize = hi;
    while end > lo && s[end - 1] == ' '
        invariant
            lo <= end <= hi <= s.len(),
            trim_end(s@.subrange(lo as int, hi as int)) == trim_end(
                s@.subrange(lo as int, end as int),
            ),
        decreases end,
    {
        assert(s@.subrange(lo as int, end as int).drop_last() =~= s@.subrange(
            lo as int,
            end - 1,
        ));
        end = end - 1;
    }
    let mut start: usize = lo;
    while start < end && s[start] == ' '
        invariant
            lo <= start <= end <= s.len(),
            trim(s@.subrange(lo as int, hi as int)) == trim_start(
                s@.subrange(start as int, end as int),
            ),
            end == lo || s@[end - 1] != ' ',
        decreases end - start,
    {
        assert(s@.subrange(start as int, end as int).drop_first() =~= s@.subrange(
            start + 1,
            end as int,
        ));
        start = start + 1;
    }
    let ghost before = out@;
    let mut i: usize = start;
    while i < end
        invariant
            start <= i <= end <= s.len(),
            out@ == before + s@.subrange(start as int, i as int),
        decreases end - i,
    {
        out.push(s[i]);
        assert(s@.subrange(start as int, i + 1) =~= s@.subrange(start as int, i as int).push(
            s@[i as int],
        ));
        i = i + 1;
    }
}

/// Appends the lines of one pixel row, each followed by a newline.
fn push_row(out: &mut Vec<char>, pixels: &Vec<Rgb>, first: usize, width: usize)
    requires
        first + width <= pixels.len(),
    ensures
        final(out)@ == old(out)@ + lines_text(
            row_lines(pixels@.subrange(first as int, first + width)),
        ),
{
    let ghost ps = pixels@.subrange(first as int, first + width);
    let mut row: Vec<char> = Vec::new();
    let mut i: usize = 0;
    while i < width
        invariant
            i <= width,
            first + width <= pixels.len(),
            row@ == row_text(pixels@.subrange(first as int, first + i)),
        decreases width - i,
    {
        let ghost done = pixels@.subrange(first as int, first + i + 1);
        assert(done.drop_last() =~= pixels@.subrange(first as int, first + i));
        push_pixel(&mut row, pixels[first + i]);
        row.push(' ');
        i = i + 1;
    }
    let ghost lines = row_lines(ps);
    if row.len() > LINE_LIMIT {
        proof {
            lemma_first_space(ps);
            lemma_channel_digits(ps[0].r);
            lemma_space_found(row@, LINE_LIMIT as int, decimal(ps[0].r as nat).len() as int);
        }
        let mut k: usize = LINE_LIMIT;
        while row[k - 1] != ' '
            invariant
                0 < k <= LINE_LIMIT < row.len(),
                last_space_before(row@, LINE_LIMIT as int) == last_space_before(row@, k as int),
                last_space_before(row@, k as int) >= 0,
            decreases k,
        {
            assert(last_space_before(row@, k as int) == last_space_before(row@, k - 1));
            assert(last_space_before(row@, 0) == -1);
            k = k - 1;
        }
        let split = k - 1;
        let ghost mid = out@;
        push_trimmed(out, &row, 0, split);
        out.push('\n');
        push_trimmed(out, &row, split + 1, row.len());
        out.push('\n');
        proof {
            assert(row@ == row_text(ps));
            assert(split as int == last_space_before(row@, LINE_LIMIT as int));
            let first_line = trim(row@.subrange(0, split as int));
            let second_line = trim(row@.subrange(split + 1, row@.len() as int));
            assert(lines == seq![first_line, second_line]);
            assert(lines.drop_last() =~= seq![first_line]);
            lemma_lines_text_one(first_line);
            assert(lines_text(lines) =~= first_line + seq!['\n'] + second_line + seq!['\n']);
            assert(out@ =~= mid + lines_text(lines));
        }
    } else {
        let ghost mid = out@;
        push_trimmed(out, &row, 0, row.len());
        out.push('\n');
        proof {
            assert(row@ == row_text(ps));
            assert(row@.subrange(0, row@.len() as int) =~= row@);
            let line = trim(row@);
            assert(lines == seq![line]);
            lemma_lines_text_one(line);
            assert(out@ =~= mid + lines_text(lines));
        }
    }
}

/// Appends the header lines, each followed by a newline.
fn push_header(out: &mut Vec<char>, width: usize, height: usize)
    ensures
        final(out)@ == old(out)@ + lines_text(header_lines(width as nat, height as nat)),
{
    let ghost start = out@;
    out.push('P');
    out.push('3');
    out.push('\n');
    let ghost after_magic = out@;
    push_decimal(out, width);
    out.push(' ');
    push_decimal(out, height);
    out.push('\n');
    let ghost after_size = out@;
    out.push('2');
    out.push('5');
    out.push('5');
    out.push('\n');
    proof {
        let h = header_lines(width as nat, height as nat);
        assert(h.drop_last().drop_last().drop_last() =~= Seq::<Seq<char>>::empty());
        assert(h.drop_last().drop_last() =~= seq![h[0]]);
        lemma_lines_text_one(h[0]);
        assert(lines_text(h.drop_last()) =~= lines_text(h.drop_last().drop_last()) + h[1]
            + seq!['\n']);
        assert(out@ =~= start + lines_text(h));
    }
}

/// The characters of the document for a `width` by `height` grid of pixels.
pub(crate) fn ppm_chars(width: usize, height: usize, pixels: &Vec<Rgb>) -> (r: Vec<char>)
    requires
        pixels@.len() == width * height,
    ensures
        r@ == ppm_text(width as nat, height as nat, pixels@),
{
    let mut out: Vec<char> = Vec::new();
    push_header(&mut out, width, height);
    assert(out@ =~= lines_text(header_lines(width as nat, height as nat)));
    assert(pixels.len() <= usize::MAX);
    let mut y: usize = 0;
    while y < height
        invariant
            pixels@.len() == width * height,
            width * height <= usize::MAX,
            y <= height,
            out@ == lines_text(header_lines(width as nat, height as nat)) + lines_text(
                body_lines(pixels@, width as nat, y as nat),
            ),
        decreases height - y,
    {
        proof {
            assert(width * y + width <= width * height) by (nonlinear_arith)
                requires
                    y < height,
            ;
            assert(width * y == y * width) by (nonlinear_arith);
        }
        let ghost before = out@;
        push_row(&mut out, pixels, width * y, width);
        proof {
            let prev = body_lines(pixels@, width as nat, y as nat);
            let row = row_lines(row_of(pixels@, width as nat, y as nat));
            assert(body_lines(pixels@, width as nat, (y + 1) as nat) == prev + row);
            lemma_lines_text_append(prev, row);
        }
        y = y + 1;
    }
    proof {
        lemma_lines_text_append(
            header_lines(width as nat, height as nat),
            body_lines(pixels@, width as nat, height as nat),
        );
    }
    out
}

} // verus!
