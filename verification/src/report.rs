//! Report options and the data collected for a report, plus the verified
//! text helpers the formatters build on. The formatters themselves render
//! for humans and live outside the verified core.

use vstd::prelude::*;

use crate::config::AppConfig;
use crate::stats::ScanStats;

verus! {

/// The output format for a generated report.
#[derive(Debug, Clone, Copy, PartialEq, Eq, Structural)]
pub enum ReportFormat {
    /// Markdown format (.md).
    Markdown,
    /// HTML format (.html).
    Html,
    /// Plain text format (.txt).
    Text,
}

impl Default for ReportFormat {
    fn default() -> (r: Self)
        ensures
            r == ReportFormat::Markdown,
    {
        ReportFormat::Markdown
    }
}

impl ReportFormat {
    /// The file extension for the format.
    pub fn extension(&self) -> (r: &'static str)
        ensures
            self is Markdown ==> r@ == "md"@,
            self is Html ==> r@ == "html"@,
            self is Text ==> r@ == "txt"@,
    {
        match self {
            ReportFormat::Markdown => "md",
            ReportFormat::Html => "html",
            ReportFormat::Text => "txt",
        }
    }
}

/// Options controlling the content and format of a generated report.
#[derive(Debug, Clone, Copy, PartialEq, Eq, Structural)]
pub struct ReportOptions {
    pub format: ReportFormat,
    pub include_stats: bool,
    pub include_contents: bool,
    pub include_line_numbers: bool,
}

impl ReportOptions {
    /// The report options the configuration defaults call for.
    pub fn from_config(config: &AppConfig) -> (r: Self)
        ensures
            r.format == (if config.export_format@ == "html"@ {
                ReportFormat::Html
            } else if config.export_format@ == "text"@ {
                ReportFormat::Text
            } else {
                ReportFormat::Markdown
            }),
            r.include_stats == config.export_include_stats,
            r.include_contents == config.export_include_contents,
            r.include_line_numbers == true,
    {
        let html = String::from_str("html");
        let text = String::from_str("text");
        let format = if config.export_format.eq(&html) {
            ReportFormat::Html
        } else if config.export_format.eq(&text) {
            ReportFormat::Text
        } else {
            ReportFormat::Markdown
        };
        ReportOptions {
            format,
            include_stats: config.export_include_stats,
            include_contents: config.export_include_contents,
            include_line_numbers: true,
        }
    }
}

/// Details about a single file included in the report content section.
pub struct FileDetail {
    pub relative_path: String,
    pub size: String,
    pub modified: String,
    pub content: Result<String, String>,
}

/// All data collected from the tree that a report needs, in any format.
pub struct ReportData {
    pub project_name: String,
    pub timestamp: String,
    pub root_path: String,
    pub full_tree_structure: String,
    pub selected_tree_structure: String,
    pub file_details: Vec<FileDetail>,
    pub stats: Option<ScanStats>,
}

/// What one character escapes to in HTML.
pub open spec fn escape_char(c: char) -> Seq<char> {
    if c == '&' {
        "&amp;"@
    } else if c == '<' {
        "&lt;"@
    } else if c == '>' {
        "&gt;"@
    } else if c == '"' {
        "&quot;"@
    } else if c == '\'' {
        "&#39;"@
    } else {
        seq![c]
    }
}

/// What a string escapes to in HTML, character by character.
pub open spec fn escape_seq(s: Seq<char>) -> Seq<char>
    decreases s.len(),
{
    if s.len() == 0 {
        Seq::empty()
    } else {
        escape_seq(s.drop_last()) + escape_char(s.last())
    }
}

/// Escapes the five HTML metacharacters.
pub fn html_escape(input: &str) -> (r: String)
    ensures
        r@ == escape_seq(input@),
{
    let n = input.unicode_len();
    let mut out = String::new();
    let mut i: usize = 0;
    while i < n
        invariant
            i <= n,
            n == input@.len(),
            out@ == escape_seq(input@.subrange(0, i as int)),
        decreases n - i,
    {
        let ghost done = input@.subrange(0, i as int);
        let c = input.get_char(i);
        if c == '&' {
            out.append("&amp;");
        } else if c == '<' {
            out.append("&lt;");
        } else if c == '>' {
            out.append("&gt;");
        } else if c == '"' {
            out.append("&quot;");
        } else if c == '\'' {
            out.append("&#39;");
        } else {
            let piece = input.substring_char(i, i + 1);
            out.append(piece);
            proof {
                assert(piece@ =~= seq![c]);
            }
        }
        proof {
            let done1 = input@.subrange(0, i as int + 1);
            assert(done1.drop_last() =~= done);
            assert(done1.last() == c);
            assert(out@ == escape_seq(done1));
        }
        i = i + 1;
    }
    proof {
        assert(input@.subrange(0, n as int) =~= input@);
    }
    out
}

/// The position of the first newline in `s`, or its length.
pub open spec fn find_nl(s: Seq<char>) -> int
    decreases s.len(),
{
    if s.len() == 0 {
        0
    } else if s[0] == '\n' {
        0
    } else {
        1 + find_nl(s.skip(1))
    }
}

proof fn lemma_find_nl(s: Seq<char>)
    ensures
        0 <= find_nl(s) <= s.len(),
        find_nl(s) < s.len() ==> s[find_nl(s)] == '\n',
        forall|j: int| 0 <= j < find_nl(s) ==> s[j] != '\n',
    decreases s.len(),
{
    if s.len() > 0 && s[0] != '\n' {
        lemma_find_nl(s.skip(1));
        assert(forall|j: int| 0 <= j < s.len() - 1 ==> #[trigger] s.skip(1)[j] == s[j + 1]);
        assert forall|j: int| 0 <= j < find_nl(s) implies s[j] != '\n' by {
            if j > 0 {
                assert(s.skip(1)[j - 1] == s[j]);
            }
        }
    }
}

/// A line with its trailing carriage return removed.
pub open spec fn strip_cr(s: Seq<char>) -> Seq<char> {
    if s.len() > 0 && s.last() == '\r' {
        s.drop_last()
    } else {
        s
    }
}

/// How many lines `s` holds, split at newlines, with no empty final line
/// after a trailing newline.
pub open spec fn line_count_spec(s: Seq<char>) -> int
    decreases s.len(),
    via line_count_spec_decreases
{
    if s.len() == 0 {
        0
    } else {
        let k = find_nl(s);
        if k == s.len() {
            1
        } else {
            1 + line_count_spec(s.skip(k + 1))
        }
    }
}

#[via_fn]
proof fn line_count_spec_decreases(s: Seq<char>) {
    lemma_find_nl(s);
}

proof fn lemma_line_count_nonneg(s: Seq<char>)
    ensures
        0 <= line_count_spec(s) <= s.len(),
    decreases s.len(),
{
    if s.len() > 0 {
        lemma_find_nl(s);
        let k = find_nl(s);
        if k < s.len() {
            lemma_line_count_nonneg(s.skip(k + 1));
        }
    }
}

/// The decimal digit character for `d`.
pub open spec fn digit_char(d: int) -> char {
    if d == 0 {
        '0'
    } else if d == 1 {
        '1'
    } else if d == 2 {
        '2'
    } else if d == 3 {
        '3'
    } else if d == 4 {
        '4'
    } else if d == 5 {
        '5'
    } else if d == 6 {
        '6'
    } else if d == 7 {
        '7'
    } else if d == 8 {
        '8'
    } else {
        '9'
    }
}

/// The decimal rendering of `n`.
pub open spec fn dec_digits(n: int) -> Seq<char>
    decreases n,
{
    if n < 10 {
        seq![digit_char(if n >= 0 {
            n % 10
        } else {
            0
        })]
    } else {
        dec_digits(n / 10).push(digit_char(n % 10))
    }
}

/// `w` spaces.
pub open spec fn pad_spaces(w: int) -> Seq<char>
    decreases w,
{
    if w <= 0 {
        Seq::empty()
    } else {
        pad_spaces(w - 1).push(' ')
    }
}

/// The numbered rendering of the lines of `s`: each line becomes its
/// right-aligned number, a separator, the line, and a newline.
pub open spec fn render_lines(s: Seq<char>, width: int, next: int) -> Seq<char>
    decreases s.len(),
    via render_lines_decreases
{
    if s.len() == 0 {
        Seq::empty()
    } else {
        let k = find_nl(s);
        let line = strip_cr(s.subrange(0, k));
        let head = pad_spaces(width - dec_digits(next).len()) + dec_digits(next) + " | "@ + line
            + seq!['\n'];
        if k == s.len() {
            head
        } else {
            head + render_lines(s.skip(k + 1), width, next + 1)
        }
    }
}

#[via_fn]
proof fn render_lines_decreases(s: Seq<char>, width: int, next: int) {
    lemma_find_nl(s);
}

/// What `prepend_line_numbers` yields: the empty string stays empty; any
/// other content has each of its lines numbered from 1, the numbers
/// right-aligned to the width of the line count.
pub open spec fn prepend_spec(s: Seq<char>) -> Seq<char> {
    if s.len() == 0 {
        Seq::empty()
    } else {
        render_lines(s, dec_digits(line_count_spec(s)).len() as int, 1)
    }
}

/// Prepends right-aligned line numbers to a block of text.
#[verifier::loop_isolation(false)]
#[verifier::rlimit(100)]
pub fn prepend_line_numbers(content: &str) -> (r: String)
    ensures
        r@ == prepend_spec(content@),
{
    let n = content.unicode_len();
    if n == 0 {
        let out = String::new();
        return out;
    }
    // first pass: count the lines
    let mut count: u128 = 0;
    let mut pos: usize = 0;
    proof {
        lemma_line_count_nonneg(content@);
        assert(content@.skip(0) =~= content@);
    }
    while pos < n
        invariant
            pos <= n,
            count as int + line_count_spec(content@.skip(pos as int)) == line_count_spec(
                content@,
            ),
            count as int <= pos,
        decreases n - pos,
    {
        let k = find_nl_from(content, pos);
        count = count + 1;
        proof {
            lemma_find_nl(content@.skip(pos as int));
            if (k as int) < n {
                assert(content@.skip(pos as int).skip(find_nl(content@.skip(pos as int)) + 1)
                    =~= content@.skip(k as int + 1));
            }
        }
        if k == n {
            pos = n;
            proof {
                assert(content@.skip(n as int) =~= Seq::<char>::empty());
            }
        } else {
            pos = k + 1;
        }
    }
    proof {
        assert(content@.skip(n as int) =~= Seq::<char>::empty());
        assert(count as int == line_count_spec(content@));
    }
    // width of the largest line number
    let count_str = dec_str(count);
    let width = count_str.as_str().unicode_len();
    // second pass: render
    let mut out = String::new();
    let mut pos2: usize = 0;
    let mut next: u128 = 1;
    proof {
        assert(content@.skip(0) =~= content@);
    }
    while pos2 < n
        invariant
            pos2 <= n,
            1 <= next as int,
            next as int + line_count_spec(content@.skip(pos2 as int)) == count as int + 1,
            out@ + render_lines(content@.skip(pos2 as int), width as int, next as int)
                == render_lines(content@, width as int, 1),
        decreases n - pos2,
    {
        let ghost rest = content@.skip(pos2 as int);
        let ghost out0 = out@;
        let k = find_nl_from(content, pos2);
        proof {
            lemma_find_nl(rest);
            assert(rest.len() > 0);
            if (k as int) < n {
                assert(rest.skip((k - pos2) as int + 1) =~= content@.skip(k as int + 1));
            }
            assert(line_count_spec(rest) >= 1) by {
                if (k as int) < n {
                    lemma_line_count_nonneg(content@.skip(k as int + 1));
                }
            }
            assert(next as int <= count as int);
            lemma_dec_len_mono(next as int, count as int);
        }
        let digits = dec_str(next);
        let dl = digits.as_str().unicode_len();
        proof {
            assert(dl as int == dec_digits(next as int).len());
        }
        let pad_n = width - dl;
        let mut head = String::new();
        let mut w: usize = 0;
        while w < pad_n
            invariant
                w <= pad_n,
                head@ == pad_spaces(w as int),
            decreases pad_n - w,
        {
            head.append(" ");
            proof {
                reveal_strlit(" ");
                assert(head@ =~= pad_spaces(w as int + 1));
            }
            w = w + 1;
        }
        proof {
            assert(head@ == pad_spaces(width as int - dec_digits(next as int).len() as int));
        }
        head.append(digits.as_str());
        head.append(" | ");
        let line_end = if k > pos2 && content.get_char(k - 1) == '\r' {
            k - 1
        } else {
            k
        };
        let piece = content.substring_char(pos2, line_end);
        head.append(piece);
        head.append("\n");
        proof {
            let kk = k as int - pos2 as int;
            assert(kk == find_nl(rest));
            assert(rest.subrange(0, kk) =~= content@.subrange(pos2 as int, k as int));
            let segment = rest.subrange(0, kk);
            if k > pos2 && content@[k as int - 1] == '\r' {
                assert(segment.len() > 0 && segment.last() == '\r');
                assert(piece@ =~= strip_cr(segment)) by {
                    assert(strip_cr(segment) == segment.drop_last());
                    assert(segment.drop_last() =~= content@.subrange(pos2 as int, k as int - 1));
                }
            } else {
                assert(!(segment.len() > 0 && segment.last() == '\r')) by {
                    if segment.len() > 0 {
                        assert(segment.last() == content@[k as int - 1]);
                    }
                }
                assert(piece@ =~= strip_cr(segment));
            }
            reveal_strlit("\n");
            assert("\n"@ =~= seq!['\n']);
            assert(head@ =~= pad_spaces(width as int - dec_digits(next as int).len() as int)
                + dec_digits(next as int) + " | "@ + strip_cr(segment) + seq!['\n']);
            // unfold render_lines at rest
            if kk == rest.len() {
                assert(render_lines(rest, width as int, next as int) == head@);
            } else {
                assert(render_lines(rest, width as int, next as int) == head@ + render_lines(
                    rest.skip(kk + 1),
                    width as int,
                    next as int + 1,
                ));
            }
        }
        out.append(head.as_str());
        next = next + 1;
        if k == n {
            pos2 = n;
            proof {
                assert(content@.skip(n as int) =~= Seq::<char>::empty());
                assert(out@ + render_lines(content@.skip(pos2 as int), width as int, next as int)
                    =~= render_lines(content@, width as int, 1));
            }
        } else {
            pos2 = k + 1;
            proof {
                assert(out@ + render_lines(content@.skip(pos2 as int), width as int, next as int)
                    =~= render_lines(content@, width as int, 1));
            }
        }
    }
    proof {
        assert(content@.skip(n as int) =~= Seq::<char>::empty());
        assert(out@ =~= render_lines(content@, width as int, 1));
    }
    out
}

/// Digit counts never shrink as the number grows.
proof fn lemma_dec_len_mono(m: int, n: int)
    requires
        0 <= m <= n,
    ensures
        dec_digits(m).len() <= dec_digits(n).len(),
    decreases n,
{
    if n >= 10 {
        if m >= 10 {
            lemma_dec_len_mono(m / 10, n / 10);
        } else {
            lemma_dec_digits_nonempty(n);
            assert(dec_digits(m).len() == 1);
        }
    }
}

/// A decimal rendering always has at least one digit.
proof fn lemma_dec_digits_nonempty(n: int)
    ensures
        dec_digits(n).len() >= 1,
    decreases n,
{
    if n >= 10 {
        lemma_dec_digits_nonempty(n / 10);
    }
}

/// The position of the first newline at or after `from`, or the length.
fn find_nl_from(s: &str, from: usize) -> (r: usize)
    requires
        from <= s@.len(),
    ensures
        from <= r <= s@.len(),
        r as int - from as int == find_nl(s@.skip(from as int)),
{
    let n = s.unicode_len();
    let mut i: usize = from;
    while i < n
        invariant
            from <= i <= n,
            n == s@.len(),
            find_nl(s@.skip(from as int)) == (i - from) + find_nl(s@.skip(i as int)),
            forall|j: int| from <= j < i ==> s@[j] != '\n',
        decreases n - i,
    {
        proof {
            assert(s@.skip(i as int)[0] == s@[i as int]);
            assert(s@.skip(i as int).skip(1) =~= s@.skip(i as int + 1));
        }
        let c = s.get_char(i);
        if c == '\n' {
            proof {
                assert(find_nl(s@.skip(i as int)) == 0);
            }
            return i;
        }
        i = i + 1;
    }
    proof {
        assert(s@.skip(n as int) =~= Seq::<char>::empty());
    }
    n
}

/// The decimal rendering of `v`.
fn dec_str(v: u128) -> (r: String)
    ensures
        r@ == dec_digits(v as int),
    decreases v,
{
    proof {
        reveal_strlit("0");
        reveal_strlit("1");
        reveal_strlit("2");
        reveal_strlit("3");
        reveal_strlit("4");
        reveal_strlit("5");
        reveal_strlit("6");
        reveal_strlit("7");
        reveal_strlit("8");
        reveal_strlit("9");
    }
    if v < 10 {
        let d: &str = match v {
            0 => "0",
            1 => "1",
            2 => "2",
            3 => "3",
            4 => "4",
            5 => "5",
            6 => "6",
            7 => "7",
            8 => "8",
            _ => "9",
        };
        let mut s = String::new();
        s.append(d);
        proof {
            assert(s@ =~= dec_digits(v as int));
        }
        s
    } else {
        let mut s = dec_str(v / 10);
        let rem = v % 10;
        let d: &str = match rem {
            0 => "0",
            1 => "1",
            2 => "2",
            3 => "3",
            4 => "4",
            5 => "5",
            6 => "6",
            7 => "7",
            8 => "8",
            _ => "9",
        };
        s.append(d);
        proof {
            assert(s@ =~= dec_digits(v as int));
        }
        s
    }
}

} // verus!
