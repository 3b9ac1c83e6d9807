use vstd::prelude::*;
use crate::names::{decimal, digit, hex, hex2, push_decimal, push_hex, push_hex2};
use vstd::string::StrSliceExecFns;

verus! {

/// How the chart of a benchmark is laid out.
#[derive(PartialEq, Eq, Copy, Clone, Debug)]
pub enum ChartStyle {
    WithKey,
    WithoutKey,
    Small,
    SmallWithKey,
}

/// The implementation a line of a chart stands for; it decides how the line
/// is drawn.
#[derive(PartialEq, Eq, Copy, Clone, Debug)]
pub enum ChartLineStyle {
    WorkAssisting(usize),
    WorkStealing,
    OmpStatic,
    OmpDynamic,
    OmpTask,
    Static,
    StaticPinned,
    Rayon,
    SequentialPartition,
    Dynamic(usize, usize, usize),
}

/// Whether an OpenMP reference runs with nested parallelism.
#[derive(PartialEq, Eq, Copy, Clone, Debug)]
pub enum Nesting {
    Nested,
    Flat,
}

/// How a line of a chart is drawn: point size in tenths, line width, point
/// type and colour (red, green, blue).
#[derive(PartialEq, Eq, Copy, Clone, Debug)]
pub struct LineStyle {
    pub point_size_tenths: u8,
    pub line_width: u8,
    pub point_type: u8,
    pub red: u8,
    pub green: u8,
    pub blue: u8,
}

/// A line style with point size 0.7 and line width 1.
pub open spec fn plain_style(point_type: u8, red: u8, green: u8, blue: u8) -> LineStyle {
    LineStyle { point_size_tenths: 7, line_width: 1, point_type, red, green, blue }
}

/// The style of each kind of line.
pub open spec fn line_style_spec(style: ChartLineStyle) -> LineStyle {
    match style {
        ChartLineStyle::WorkAssisting(chunk_size) => LineStyle {
            point_size_tenths: 4,
            line_width: 2,
            point_type: 7,
            red: (chunk_size * 50 % 256) as u8,
            green: 0x0A,
            blue: 0x35,
        },
        ChartLineStyle::WorkStealing => plain_style(6, 0x5B, 0x21, 0x82),
        ChartLineStyle::OmpStatic => plain_style(5, 0xFF, 0xCD, 0x00),
        ChartLineStyle::OmpDynamic => plain_style(4, 0x00, 0x12, 0x40),
        ChartLineStyle::OmpTask => plain_style(12, 0xF3, 0x96, 0x5E),
        ChartLineStyle::Static => plain_style(2, 0x52, 0x87, 0xC6),
        ChartLineStyle::StaticPinned => plain_style(3, 0x24, 0xA7, 0x93),
        ChartLineStyle::Rayon => plain_style(1, 0x6E, 0x3B, 0x23),
        ChartLineStyle::SequentialPartition => plain_style(1, 0x24, 0xA7, 0x93),
        ChartLineStyle::Dynamic(atomics, min_chunks, chunk_size) => LineStyle {
            point_size_tenths: 7,
            line_width: 2,
            point_type: 1,
            red: (atomics * 10 % 256) as u8,
            green: (min_chunks * 20 % 256) as u8,
            blue: (chunk_size * 30 % 256) as u8,
        },
    }
}

/// The multiplications in a style's colour do not overflow.
pub open spec fn style_fits(style: ChartLineStyle) -> bool {
    match style {
        ChartLineStyle::WorkAssisting(chunk_size) => chunk_size * 50 <= usize::MAX,
        ChartLineStyle::Dynamic(atomics, min_chunks, chunk_size) => atomics * 10 <= usize::MAX
            && min_chunks * 20 <= usize::MAX && chunk_size * 30 <= usize::MAX,
        _ => true,
    }
}

/// See `line_style_spec`.
pub fn line_style(style: ChartLineStyle) -> (r: LineStyle)
    requires
        style_fits(style),
    ensures
        r == line_style_spec(style),
{
    match style {
        ChartLineStyle::WorkAssisting(chunk_size) => LineStyle {
            point_size_tenths: 4,
            line_width: 2,
            point_type: 7,
            red: (chunk_size * 50 % 256) as u8,
            green: 0x0A,
            blue: 0x35,
        },
        ChartLineStyle::WorkStealing => LineStyle { point_size_tenths: 7, line_width: 1, point_type: 6, red: 0x5B, green: 0x21, blue: 0x82 },
        ChartLineStyle::OmpStatic => LineStyle { point_size_tenths: 7, line_width: 1, point_type: 5, red: 0xFF, green: 0xCD, blue: 0x00 },
        ChartLineStyle::OmpDynamic => LineStyle { point_size_tenths: 7, line_width: 1, point_type: 4, red: 0x00, green: 0x12, blue: 0x40 },
        ChartLineStyle::OmpTask => LineStyle { point_size_tenths: 7, line_width: 1, point_type: 12, red: 0xF3, green: 0x96, blue: 0x5E },
        ChartLineStyle::Static => LineStyle { point_size_tenths: 7, line_width: 1, point_type: 2, red: 0x52, green: 0x87, blue: 0xC6 },
        ChartLineStyle::StaticPinned => LineStyle { point_size_tenths: 7, line_width: 1, point_type: 3, red: 0x24, green: 0xA7, blue: 0x93 },
        ChartLineStyle::Rayon => LineStyle { point_size_tenths: 7, line_width: 1, point_type: 1, red: 0x6E, green: 0x3B, blue: 0x23 },
        ChartLineStyle::SequentialPartition => LineStyle { point_size_tenths: 7, line_width: 1, point_type: 1, red: 0x24, green: 0xA7, blue: 0x93 },
        ChartLineStyle::Dynamic(atomics, min_chunks, chunk_size) => LineStyle {
            point_size_tenths: 7,
            line_width: 2,
            point_type: 1,
            red: (atomics * 10 % 256) as u8,
            green: (min_chunks * 20 % 256) as u8,
            blue: (chunk_size * 30 % 256) as u8,
        },
    }
}

/// The gnuplot text of a line style:
/// `pointsize 0.<tenths> lw <width> pt <type> linecolor rgb "#RRGGBB"`, with
/// the colour in upper-case hexadecimal.
pub open spec fn line_style_text(r: LineStyle) -> Seq<char> {
    "pointsize 0."@ + decimal(r.point_size_tenths as nat) + " lw "@ + decimal(r.line_width as nat)
        + " pt "@ + decimal(r.point_type as nat) + " linecolor rgb \"#"@ + hex2(r.red) + hex2(r.green)
        + hex2(r.blue) + "\""@
}

/// A byte as two upper-case hexadecimal digits, read off the digit
/// alphabet.
pub open spec fn byte_in_hex(b: int) -> Seq<char> {
    seq!["0123456789ABCDEF"@[b / 16], "0123456789ABCDEF"@[b % 16]]
}

/// The gnuplot text of every kind of chart line: the fixed styles have
/// their own colours, the work-assisting lines a red part that grows with
/// the chunk size, and the dynamic lines a colour from their three
/// settings.
pub proof fn lemma_line_style_texts(style: ChartLineStyle)
    requires
        style_fits(style),
    ensures
        style == ChartLineStyle::WorkStealing ==> line_style_text(line_style_spec(style))
            == "pointsize 0.7 lw 1 pt 6 linecolor rgb \"#5B2182\""@,
        style == ChartLineStyle::OmpStatic ==> line_style_text(line_style_spec(style))
            == "pointsize 0.7 lw 1 pt 5 linecolor rgb \"#FFCD00\""@,
        style == ChartLineStyle::OmpDynamic ==> line_style_text(line_style_spec(style))
            == "pointsize 0.7 lw 1 pt 4 linecolor rgb \"#001240\""@,
        style == ChartLineStyle::OmpTask ==> line_style_text(line_style_spec(style))
            == "pointsize 0.7 lw 1 pt 12 linecolor rgb \"#F3965E\""@,
        style == ChartLineStyle::Static ==> line_style_text(line_style_spec(style))
            == "pointsize 0.7 lw 1 pt 2 linecolor rgb \"#5287C6\""@,
        style == ChartLineStyle::StaticPinned ==> line_style_text(line_style_spec(style))
            == "pointsize 0.7 lw 1 pt 3 linecolor rgb \"#24A793\""@,
        style == ChartLineStyle::Rayon ==> line_style_text(line_style_spec(style))
            == "pointsize 0.7 lw 1 pt 1 linecolor rgb \"#6E3B23\""@,
        style == ChartLineStyle::SequentialPartition ==> line_style_text(line_style_spec(style))
            == "pointsize 0.7 lw 1 pt 1 linecolor rgb \"#24A793\""@,
        style matches ChartLineStyle::WorkAssisting(c) ==> line_style_text(line_style_spec(style))
            == "pointsize 0.4 lw 2 pt 7 linecolor rgb \"#"@ + byte_in_hex(c * 50 % 256) + "0A35\""@,
        style matches ChartLineStyle::Dynamic(a, m, c) ==> line_style_text(line_style_spec(style))
            == "pointsize 0.7 lw 2 pt 1 linecolor rgb \"#"@ + byte_in_hex(a * 10 % 256)
                + byte_in_hex(m * 20 % 256) + byte_in_hex(c * 30 % 256) + "\""@,
{
    reveal_strlit("0123456789ABCDEF");
    reveal_strlit("pointsize 0.");
    reveal_strlit(" lw ");
    reveal_strlit(" pt ");
    reveal_strlit(" linecolor rgb \"#");
    reveal_strlit("\"");
    reveal_strlit("pointsize 0.4 lw 2 pt 7 linecolor rgb \"#");
    reveal_strlit("0A35\"");
    reveal_strlit("pointsize 0.7 lw 2 pt 1 linecolor rgb \"#");
    assert forall|b: u8| #[trigger] hex2(b) == byte_in_hex(b as int) by {
        assert(hex2(b) =~= byte_in_hex(b as int));
    }
    let r = line_style_spec(style);
    let t = line_style_text(r);
    match style {
        ChartLineStyle::WorkStealing => {
            reveal_strlit("pointsize 0.7 lw 1 pt 6 linecolor rgb \"#5B2182\"");
            assert(t =~= "pointsize 0.7 lw 1 pt 6 linecolor rgb \"#5B2182\""@);
        },
        ChartLineStyle::OmpStatic => {
            reveal_strlit("pointsize 0.7 lw 1 pt 5 linecolor rgb \"#FFCD00\"");
            assert(t =~= "pointsize 0.7 lw 1 pt 5 linecolor rgb \"#FFCD00\""@);
        },
        ChartLineStyle::OmpDynamic => {
            reveal_strlit("pointsize 0.7 lw 1 pt 4 linecolor rgb \"#001240\"");
            assert(t =~= "pointsize 0.7 lw 1 pt 4 linecolor rgb \"#001240\""@);
        },
        ChartLineStyle::OmpTask => {
            reveal_strlit("pointsize 0.7 lw 1 pt 12 linecolor rgb \"#F3965E\"");
            assert(decimal(12) == decimal(1).push(digit(2)));
            assert(t =~= "pointsize 0.7 lw 1 pt 12 linecolor rgb \"#F3965E\""@);
        },
        ChartLineStyle::Static => {
            reveal_strlit("pointsize 0.7 lw 1 pt 2 linecolor rgb \"#5287C6\"");
            assert(t =~= "pointsize 0.7 lw 1 pt 2 linecolor rgb \"#5287C6\""@);
        },
        ChartLineStyle::StaticPinned => {
            reveal_strlit("pointsize 0.7 lw 1 pt 3 linecolor rgb \"#24A793\"");
            assert(t =~= "pointsize 0.7 lw 1 pt 3 linecolor rgb \"#24A793\""@);
        },
        ChartLineStyle::Rayon => {
            reveal_strlit("pointsize 0.7 lw 1 pt 1 linecolor rgb \"#6E3B23\"");
            assert(t =~= "pointsize 0.7 lw 1 pt 1 linecolor rgb \"#6E3B23\""@);
        },
        ChartLineStyle::SequentialPartition => {
            reveal_strlit("pointsize 0.7 lw 1 pt 1 linecolor rgb \"#24A793\"");
            assert(t =~= "pointsize 0.7 lw 1 pt 1 linecolor rgb \"#24A793\""@);
        },
        ChartLineStyle::WorkAssisting(c) => {
            assert(t =~= "pointsize 0.4 lw 2 pt 7 linecolor rgb \"#"@ + byte_in_hex(c * 50 % 256) + "0A35\""@);
        },
        ChartLineStyle::Dynamic(a, m, c) => {
            assert(t =~= "pointsize 0.7 lw 2 pt 1 linecolor rgb \"#"@ + byte_in_hex(a * 10 % 256)
                + byte_in_hex(m * 20 % 256) + byte_in_hex(c * 30 % 256) + "\""@);
        },
    }
}

/// Writes a line style as gnuplot text (see `line_style_text`).
pub fn line_style_to_str(r: LineStyle) -> (text: String)
    ensures
        text@ == line_style_text(r),
{
    let mut s = String::from_str("pointsize 0.");
    push_decimal(&mut s, r.point_size_tenths as u64);
    s.append(" lw ");
    push_decimal(&mut s, r.line_width as u64);
    s.append(" pt ");
    push_decimal(&mut s, r.point_type as u64);
    s.append(" linecolor rgb \"#");
    push_hex2(&mut s, r.red);
    push_hex2(&mut s, r.green);
    push_hex2(&mut s, r.blue);
    s.append("\"");
    s
}

/// The gnuplot text that draws a line of the given kind.
pub fn chart_line_style_to_str(style: ChartLineStyle) -> (text: String)
    requires
        style_fits(style),
    ensures
        text@ == line_style_text(line_style_spec(style)),
{
    line_style_to_str(line_style(style))
}

/// The thread counts at which every parallel implementation is measured.
pub open spec fn thread_counts_spec() -> Seq<usize> {
    seq![1, 2, 3, 4, 6, 8, 10, 12, 14, 16, 20, 24, 28, 32]
}

/// The thread counts that a machine with `available` cores can run: those
/// of `thread_counts_spec` up to `available`, which form a prefix of them.
pub fn measured_thread_counts(available: usize) -> (r: Vec<usize>)
    ensures
        r@ == thread_counts_spec().take(r.len() as int),
        forall|k: int| 0 <= k < r.len() ==> #[trigger] r[k] <= available,
        r.len() < thread_counts_spec().len() ==> thread_counts_spec()[r.len() as int] > available,
        forall|t: usize| #[trigger] r@.contains(t) <==> (t <= available
            && seq![1usize, 2, 3, 4, 6, 8, 10, 12, 14, 16, 20, 24, 28, 32].contains(t)),
        forall|i: int, j: int| 0 <= i < j < r.len() ==> #[trigger] r[i] < #[trigger] r[j],
{
    let all: Vec<usize> = vec![1, 2, 3, 4, 6, 8, 10, 12, 14, 16, 20, 24, 28, 32];
    assert(all@ =~= thread_counts_spec());
    let mut r: Vec<usize> = Vec::new();
    let mut i: usize = 0;
    while i < all.len()
        invariant
            all@ == thread_counts_spec(),
            i <= all.len(),
            r.len() == i,
            r@ == thread_counts_spec().take(i as int),
            forall|k: int| 0 <= k < r.len() ==> #[trigger] r[k] <= available,
        ensures
            r@ == thread_counts_spec().take(r.len() as int),
            forall|k: int| 0 <= k < r.len() ==> #[trigger] r[k] <= available,
            r.len() < thread_counts_spec().len() ==> thread_counts_spec()[r.len() as int] > available,
        decreases all.len() - i,
    {
        if all[i] > available {
            break;
        }
        r.push(all[i]);
        i = i + 1;
        assert(r@ =~= thread_counts_spec().take(i as int));
    }
    proof {
        lemma_listed_counts(available, r@);
    }
    r
}

/// The thread counts up to `available` that a benchmark measures are the
/// listed ones, in increasing order.
pub proof fn lemma_listed_counts(available: usize, r: Seq<usize>)
    requires
        r == thread_counts_spec().take(r.len() as int),
        r.len() <= thread_counts_spec().len(),
        forall|k: int| 0 <= k < r.len() ==> #[trigger] r[k] <= available,
        r.len() < thread_counts_spec().len() ==> thread_counts_spec()[r.len() as int] > available,
    ensures
        forall|t: usize| #[trigger] r.contains(t) <==> (t <= available
            && seq![1usize, 2, 3, 4, 6, 8, 10, 12, 14, 16, 20, 24, 28, 32].contains(t)),
        forall|i: int, j: int| 0 <= i < j < r.len() ==> #[trigger] r[i] < #[trigger] r[j],
{
    let l = seq![1usize, 2, 3, 4, 6, 8, 10, 12, 14, 16, 20, 24, 28, 32];
    let all = thread_counts_spec();
    assert(all =~= l);
    assert forall|i: int, j: int| 0 <= i < j < l.len() implies #[trigger] l[i] < #[trigger] l[j] by {}
    assert forall|t: usize| #[trigger] r.contains(t) <==> (t <= available && l.contains(t)) by {
        if r.contains(t) {
            let k = choose|k: int| 0 <= k < r.len() && r[k] == t;
            assert(l[k] == t);
        }
        if t <= available && l.contains(t) {
            let k = choose|k: int| 0 <= k < l.len() && l[k] == t;
            if k >= r.len() {
                assert(l[r.len() as int] <= l[k]);
            }
            assert(r[k] == t);
        }
    }
}

/// The mean time of one run in microseconds, from the total time of `runs`
/// runs (truncated to a `u64`).
pub fn average_micros(total: u128, runs: usize) -> (r: u64)
    requires
        runs > 0,
    ensures
        r == (total / runs as u128) as u64,
{
    (total / runs as u128) as u64
}

/// How a character of a benchmark's name appears in its file name: spaces
/// and `=` become `_`, brackets are dropped.
pub open spec fn clean_char(c: char) -> Seq<char> {
    if c == ' ' || c == '=' {
        seq!['_']
    } else if c == '(' || c == ')' {
        Seq::empty()
    } else {
        seq![c]
    }
}

/// A benchmark's name with every character cleaned by `clean_char`.
pub open spec fn clean_name(s: Seq<char>) -> Seq<char>
    decreases s.len(),
{
    if s.len() == 0 {
        Seq::empty()
    } else {
        clean_name(s.drop_last()) + clean_char(s.last())
    }
}

/// Cleaning a name works character by character: the name of two parts is
/// cleaned part by part, a space or `=` becomes `_`, a bracket disappears,
/// and every other character stays.
pub proof fn lemma_clean_name_parts(a: Seq<char>, b: Seq<char>, c: char)
    ensures
        clean_name(a + b) == clean_name(a) + clean_name(b),
        clean_name(seq![c]) == (if c == ' ' || c == '=' {
            seq!['_']
        } else if c == '(' || c == ')' {
            Seq::<char>::empty()
        } else {
            seq![c]
        }),
    decreases b.len(),
{
    if b.len() == 0 {
        assert(a + b =~= a);
        assert(clean_name(b) =~= Seq::<char>::empty());
        assert(clean_name(a) + clean_name(b) =~= clean_name(a));
    } else {
        lemma_clean_name_parts(a, b.drop_last(), c);
        assert((a + b).drop_last() =~= a + b.drop_last());
        assert((a + b).last() == b.last());
        assert(clean_name(a + b) =~= clean_name(a) + clean_name(b));
    }
    assert(seq![c].drop_last() =~= Seq::<char>::empty());
    assert(clean_name(Seq::<char>::empty()) =~= Seq::<char>::empty());
    assert(clean_name(seq![c]) =~= clean_char(c));
}

/// The path, without extension, of the result files of benchmark `name`.
pub fn result_path(name: &str) -> (path: String)
    ensures
        path@ == "./results/"@ + clean_name(name@),
{
    let mut path = String::from_str("./results/");
    let n = name.unicode_len();
    let mut i: usize = 0;
    while i < n
        invariant
            n == name@.len(),
            i <= n,
            path@ == "./results/"@ + clean_name(name@.take(i as int)),
        decreases n - i,
    {
        let c = name.get_char(i);
        proof {
            assert(name@.take(i + 1).drop_last() =~= name@.take(i as int));
            assert(name@.take(i + 1).last() == c);
            reveal_strlit("_");
        }
        if c == ' ' || c == '=' {
            path.append("_");
        } else if c == '(' || c == ')' {
        } else {
            path.append(name.substring_char(i, i + 1));
            assert(name@.subrange(i as int, i + 1) =~= seq![c]);
        }
        i = i + 1;
        assert(path@ =~= "./results/"@ + clean_name(name@.take(i as int)));
    }
    assert(name@.take(n as int) =~= name@);
    path
}

/// The chart has small dimensions.
pub open spec fn is_small(style: ChartStyle) -> bool {
    style == ChartStyle::Small || style == ChartStyle::SmallWithKey
}

/// The chart shows a key.
pub open spec fn has_key(style: ChartStyle) -> bool {
    style == ChartStyle::WithKey || style == ChartStyle::SmallWithKey
}

/// The extra ticks of the thread axis: `, i, i + 4, ...` up to `max`.
pub open spec fn xtics(i: int, max: int) -> Seq<char>
    decreases max + 4 - i,
{
    if i > max || i < 0 {
        Seq::empty()
    } else {
        ", "@ + decimal(i as nat) + xtics(i + 4, max)
    }
}

/// The plot command for line `idx` of a chart: its data column, its name and
/// its style.
pub open spec fn plot_entry(path: Seq<char>, idx: int, name: Seq<char>, style: ChartLineStyle) -> Seq<char> {
    "'"@ + path + ".dat' using 1:"@ + decimal((idx + 2) as nat) + " title \""@ + name + "\" "@
        + line_style_text(line_style_spec(style)) + " with linespoints"@
}

/// The plot commands of all lines, separated by a continued line.
pub open spec fn plot_entries(path: Seq<char>, lines: Seq<(String, ChartLineStyle)>) -> Seq<char>
    decreases lines.len(),
{
    if lines.len() == 0 {
        Seq::empty()
    } else {
        let k = lines.len() - 1;
        plot_entries(path, lines.drop_last()) + (if k == 0 { Seq::empty() } else { ", \\\n  "@ })
            + plot_entry(path, k, lines[k].0@, lines[k].1)
    }
}

/// The number of threads the thread axis goes up to: 32, or fewer on a
/// machine with fewer threads.
pub open spec fn axis_threads(available: usize) -> int {
    if available < 32 { available as int } else { 32 }
}

/// The gnuplot script that draws the speedup chart of a benchmark.
pub open spec fn gnuplot_text(
    title: Seq<char>,
    style: ChartStyle,
    path: Seq<char>,
    available: usize,
    max_y: u64,
    lines: Seq<(String, ChartLineStyle)>,
) -> Seq<char> {
    let max_threads = axis_threads(available);
    "set title \""@ + title + "\"\n"@
        + (if is_small(style) { "set terminal pdf size 2.2,2.0\n"@ } else { "set terminal pdf size 3.2,2.9\n"@ })
        + "set output \""@ + path + ".pdf\"\n"@
        + (if has_key(style) {
            "set key on\n"@ + "set key top left Left reverse\n"@
                + (if is_small(style) { "set key samplen 1.4\n"@ } else { "set key samplen 2.5\n"@ })
        } else {
            "set key off\n"@
        })
        + "set xrange [1:"@ + decimal(max_threads as nat) + "]\n"@
        + "set xtics (1"@ + xtics(4, max_threads) + ")\n"@
        + "set xlabel \"Number of threads\"\n"@
        + "set yrange [0:"@ + decimal(max_y as nat) + "]\n"@
        + (if max_y == 9 {
            "set ytics (0, 2, 4, 6, 8)\n"@
        } else if max_y == 5 {
            "set ytics (0, 1, 2, 3, 4)\n"@
        } else {
            Seq::empty()
        })
        + "set ylabel \"Speedup\"\n"@
        + "plot "@ + plot_entries(path, lines) + "\n"@
}

/// Where the size line of a chart's script starts: after the title line.
pub open spec fn size_line_at(title: Seq<char>) -> int {
    title.len() as int + 13
}

/// Where the key lines of a chart's script start: after the title, size
/// and output lines.
pub open spec fn key_lines_at(title: Seq<char>, path: Seq<char>) -> int {
    title.len() as int + 13 + 30 + 12 + path.len() as int + 6
}

/// The size and key lines of a chart's gnuplot script, for each chart
/// style: small charts (`Small`, `SmallWithKey`) are drawn at 2.2 by 2.0
/// inches, the others at 3.2 by 2.9; charts with a key (`WithKey`,
/// `SmallWithKey`) turn it on at the top left with a sample length of 1.4
/// when small and 2.5 otherwise; the others turn it off.
#[verifier::rlimit(100)]
pub proof fn lemma_chart_size_and_key(
    title: Seq<char>,
    style: ChartStyle,
    path: Seq<char>,
    available: usize,
    max_y: u64,
    lines: Seq<(String, ChartLineStyle)>,
)
    ensures
        ({
            let text = gnuplot_text(title, style, path, available, max_y, lines);
            let at = size_line_at(title);
            let key_at = key_lines_at(title, path);
            &&& text.subrange(0, at) == "set title \""@ + title + "\"\n"@
            &&& (style == ChartStyle::Small || style == ChartStyle::SmallWithKey)
                ==> text.subrange(at, at + 30) == "set terminal pdf size 2.2,2.0\n"@
            &&& (style == ChartStyle::WithKey || style == ChartStyle::WithoutKey)
                ==> text.subrange(at, at + 30) == "set terminal pdf size 3.2,2.9\n"@
            &&& text.subrange(at + 30, key_at) == "set output \""@ + path + ".pdf\"\n"@
            &&& style == ChartStyle::SmallWithKey
                ==> text.subrange(key_at, key_at + 61) == "set key on\nset key top left Left reverse\nset key samplen 1.4\n"@
            &&& style == ChartStyle::WithKey
                ==> text.subrange(key_at, key_at + 61) == "set key on\nset key top left Left reverse\nset key samplen 2.5\n"@
            &&& (style == ChartStyle::Small || style == ChartStyle::WithoutKey)
                ==> text.subrange(key_at, key_at + 12) == "set key off\n"@
        }),
{
    reveal_strlit("set title \"");
    reveal_strlit("\"\n");
    reveal_strlit("set terminal pdf size 2.2,2.0\n");
    reveal_strlit("set terminal pdf size 3.2,2.9\n");
    reveal_strlit("set output \"");
    reveal_strlit(".pdf\"\n");
    reveal_strlit("set key on\n");
    reveal_strlit("set key top left Left reverse\n");
    reveal_strlit("set key samplen 1.4\n");
    reveal_strlit("set key samplen 2.5\n");
    reveal_strlit("set key off\n");
    reveal_strlit("set key on\nset key top left Left reverse\nset key samplen 1.4\n");
    reveal_strlit("set key on\nset key top left Left reverse\nset key samplen 2.5\n");
    let text = gnuplot_text(title, style, path, available, max_y, lines);
    let size = if is_small(style) { "set terminal pdf size 2.2,2.0\n"@ } else { "set terminal pdf size 3.2,2.9\n"@ };
    let key = if has_key(style) {
        "set key on\n"@ + "set key top left Left reverse\n"@
            + (if is_small(style) { "set key samplen 1.4\n"@ } else { "set key samplen 2.5\n"@ })
    } else {
        "set key off\n"@
    };
    let max_threads = axis_threads(available);
    let t1 = "set title \""@ + title;
    let t2 = t1 + "\"\n"@;
    let t3 = t2 + size;
    let t4 = t3 + "set output \""@;
    let t5 = t4 + path;
    let t6 = t5 + ".pdf\"\n"@;
    let t7 = t6 + key;
    let u1 = t7 + "set xrange [1:"@;
    let u2 = u1 + decimal(max_threads as nat);
    let u3 = u2 + "]\n"@;
    let u4 = u3 + "set xtics (1"@;
    let u5 = u4 + xtics(4, max_threads);
    let u6 = u5 + ")\n"@;
    let u7 = u6 + "set xlabel \"Number of threads\"\n"@;
    let u8 = u7 + "set yrange [0:"@;
    let u9 = u8 + decimal(max_y as nat);
    let u10 = u9 + "]\n"@;
    let u11 = u10 + (if max_y == 9 {
        "set ytics (0, 2, 4, 6, 8)\n"@
    } else if max_y == 5 {
        "set ytics (0, 1, 2, 3, 4)\n"@
    } else {
        Seq::empty()
    });
    let u12 = u11 + "set ylabel \"Speedup\"\n"@;
    let u13 = u12 + "plot "@;
    let u14 = u13 + plot_entries(path, lines);
    let u15 = u14 + "\n"@;
    assert(text == u15);
    assert(t7.subrange(0, t7.len() as int) =~= t7);
    lemma_prefix_grows(t7, t7, "set xrange [1:"@);
    lemma_prefix_grows(t7, u1, decimal(max_threads as nat));
    lemma_prefix_grows(t7, u2, "]\n"@);
    lemma_prefix_grows(t7, u3, "set xtics (1"@);
    lemma_prefix_grows(t7, u4, xtics(4, max_threads));
    lemma_prefix_grows(t7, u5, ")\n"@);
    lemma_prefix_grows(t7, u6, "set xlabel \"Number of threads\"\n"@);
    lemma_prefix_grows(t7, u7, "set yrange [0:"@);
    lemma_prefix_grows(t7, u8, decimal(max_y as nat));
    lemma_prefix_grows(t7, u9, "]\n"@);
    lemma_prefix_grows(t7, u10, if max_y == 9 {
        "set ytics (0, 2, 4, 6, 8)\n"@
    } else if max_y == 5 {
        "set ytics (0, 1, 2, 3, 4)\n"@
    } else {
        Seq::empty()
    });
    lemma_prefix_grows(t7, u11, "set ylabel \"Speedup\"\n"@);
    lemma_prefix_grows(t7, u12, "plot "@);
    lemma_prefix_grows(t7, u13, plot_entries(path, lines));
    lemma_prefix_grows(t7, u14, "\n"@);
    let at = size_line_at(title);
    let key_at = key_lines_at(title, path);
    assert(t2.len() == at);
    assert(t6.len() == key_at);
    assert(text.subrange(0, at) =~= t7.subrange(0, at));
    assert(t7.subrange(0, at) =~= "set title \""@ + title + "\"\n"@);
    assert(text.subrange(at, at + 30) =~= t7.subrange(at, at + 30));
    assert(t7.subrange(at, at + 30) =~= size);
    assert(text.subrange(at + 30, key_at) =~= t7.subrange(at + 30, key_at));
    assert(t7.subrange(at + 30, key_at) =~= "set output \""@ + path + ".pdf\"\n"@);
    if has_key(style) {
        assert(key.len() == 61);
        assert(text.subrange(key_at, key_at + 61) =~= t7.subrange(key_at, key_at + 61));
        assert(t7.subrange(key_at, key_at + 61) =~= key);
    } else {
        assert(key.len() == 12);
        assert(text.subrange(key_at, key_at + 12) =~= t7.subrange(key_at, key_at + 12));
        assert(t7.subrange(key_at, key_at + 12) =~= key);
    }
}

/// The ticks of the thread axis step by four: from `i` on, a tick for `i`
/// and then those from `i + 4`; none past `max`.
pub proof fn lemma_xtics_step(i: int, max: int)
    requires
        i >= 0,
    ensures
        i > max ==> xtics(i, max) == Seq::<char>::empty(),
        i <= max ==> xtics(i, max) == ", "@ + decimal(i as nat) + xtics(i + 4, max),
{
}

/// The axes and plot lines of a chart's gnuplot script, after the key
/// lines: the thread axis from 1 to the number of threads of the machine
/// but at most 32, its ticks at 1 and the multiples of 4 up to there
/// (`lemma_xtics_step`), its label, the speedup axis from 0 to `max_y`
/// with fixed ticks for the heights 9 and 5, its label, and the plot
/// command with one entry per line, closing the script.
#[verifier::rlimit(100)]
pub proof fn lemma_chart_axes(
    title: Seq<char>,
    style: ChartStyle,
    path: Seq<char>,
    available: usize,
    max_y: u64,
    lines: Seq<(String, ChartLineStyle)>,
)
    ensures
        ({
            let text = gnuplot_text(title, style, path, available, max_y, lines);
            let keyed = style == ChartStyle::WithKey || style == ChartStyle::SmallWithKey;
            let axis = if available < 32 { available as int } else { 32 };
            let x_at = key_lines_at(title, path) + (if keyed { 61int } else { 12int });
            let x_line = "set xrange [1:"@ + decimal(axis as nat) + "]\n"@;
            let t_at = x_at + x_line.len();
            let t_line = "set xtics (1"@ + xtics(4, axis) + ")\n"@;
            let l_at = t_at + t_line.len();
            let y_at = l_at + 31;
            let y_line = "set yrange [0:"@ + decimal(max_y as nat) + "]\n"@;
            let yt_at = y_at + y_line.len();
            let yt_line = if max_y == 9 {
                "set ytics (0, 2, 4, 6, 8)\n"@
            } else if max_y == 5 {
                "set ytics (0, 1, 2, 3, 4)\n"@
            } else {
                Seq::<char>::empty()
            };
            let end_at = yt_at + yt_line.len();
            &&& text.subrange(x_at, t_at) == x_line
            &&& text.subrange(t_at, l_at) == t_line
            &&& text.subrange(l_at, y_at) == "set xlabel \"Number of threads\"\n"@
            &&& text.subrange(y_at, yt_at) == y_line
            &&& text.subrange(yt_at, end_at) == yt_line
            &&& text.subrange(end_at, text.len() as int) == "set ylabel \"Speedup\"\n"@ + "plot "@ + plot_entries(path, lines) + "\n"@
        }),
{
    reveal_strlit("set key on\n");
    reveal_strlit("set key top left Left reverse\n");
    reveal_strlit("set key samplen 1.4\n");
    reveal_strlit("set key samplen 2.5\n");
    reveal_strlit("set key off\n");
    reveal_strlit("set xlabel \"Number of threads\"\n");
    let text = gnuplot_text(title, style, path, available, max_y, lines);
    let size = if is_small(style) { "set terminal pdf size 2.2,2.0\n"@ } else { "set terminal pdf size 3.2,2.9\n"@ };
    let key = if has_key(style) {
        "set key on\n"@ + "set key top left Left reverse\n"@
            + (if is_small(style) { "set key samplen 1.4\n"@ } else { "set key samplen 2.5\n"@ })
    } else {
        "set key off\n"@
    };
    let max_threads = axis_threads(available);
    let t1 = "set title \""@ + title;
    let t2 = t1 + "\"\n"@;
    let t3 = t2 + size;
    let t4 = t3 + "set output \""@;
    let t5 = t4 + path;
    let t6 = t5 + ".pdf\"\n"@;
    let t7 = t6 + key;
    let u1 = t7 + "set xrange [1:"@;
    let u2 = u1 + decimal(max_threads as nat);
    let u3 = u2 + "]\n"@;
    let u4 = u3 + "set xtics (1"@;
    let u5 = u4 + xtics(4, max_threads);
    let u6 = u5 + ")\n"@;
    let u7 = u6 + "set xlabel \"Number of threads\"\n"@;
    let u8 = u7 + "set yrange [0:"@;
    let u9 = u8 + decimal(max_y as nat);
    let u10 = u9 + "]\n"@;
    let yt = if max_y == 9 {
        "set ytics (0, 2, 4, 6, 8)\n"@
    } else if max_y == 5 {
        "set ytics (0, 1, 2, 3, 4)\n"@
    } else {
        Seq::empty()
    };
    let u11 = u10 + yt;
    let u12 = u11 + "set ylabel \"Speedup\"\n"@;
    let u13 = u12 + "plot "@;
    let u14 = u13 + plot_entries(path, lines);
    let u15 = u14 + "\n"@;
    assert(text == u15);
    lemma_chart_size_and_key(title, style, path, available, max_y, lines);
    let keyed = style == ChartStyle::WithKey || style == ChartStyle::SmallWithKey;
    assert(t6.len() == key_lines_at(title, path)) by {
        reveal_strlit("set title \"");
        reveal_strlit("\"\n");
        reveal_strlit("set terminal pdf size 2.2,2.0\n");
        reveal_strlit("set terminal pdf size 3.2,2.9\n");
        reveal_strlit("set output \"");
        reveal_strlit(".pdf\"\n");
    }
    assert(key.len() == (if keyed { 61int } else { 12int }));
    let x_at = t7.len() as int;
    let rest = "set xrange [1:"@ + decimal(max_threads as nat) + "]\n"@ + ("set xtics (1"@ + xtics(4, max_threads) + ")\n"@)
        + "set xlabel \"Number of threads\"\n"@ + ("set yrange [0:"@ + decimal(max_y as nat) + "]\n"@) + yt
        + ("set ylabel \"Speedup\"\n"@ + "plot "@ + plot_entries(path, lines) + "\n"@);
    assert(u15 =~= t7 + rest);
    assert(max_threads == (if available < 32 { available as int } else { 32 }));
    let x_line = "set xrange [1:"@ + decimal(max_threads as nat) + "]\n"@;
    let t_line = "set xtics (1"@ + xtics(4, max_threads) + ")\n"@;
    let y_line = "set yrange [0:"@ + decimal(max_y as nat) + "]\n"@;
    let xl = "set xlabel \"Number of threads\"\n"@;
    let tail = "set ylabel \"Speedup\"\n"@ + "plot "@ + plot_entries(path, lines) + "\n"@;
    assert(rest =~= x_line + t_line + xl + y_line + yt + tail);
    assert(xl.len() == 31);
    let t_at = x_at + x_line.len();
    let l_at = t_at + t_line.len();
    let y_at = l_at + 31;
    let yt_at = y_at + y_line.len();
    let end_at = yt_at + yt.len();
    assert(text.subrange(x_at, t_at) =~= x_line);
    assert(text.subrange(t_at, l_at) =~= t_line);
    assert(text.subrange(l_at, y_at) =~= xl);
    assert(text.subrange(y_at, yt_at) =~= y_line);
    assert(text.subrange(yt_at, end_at) =~= yt);
    assert(text.subrange(end_at, text.len() as int) =~= tail);
}

/// If `a` starts `b`, it starts `b + c`.
proof fn lemma_prefix_grows(a: Seq<char>, b: Seq<char>, c: Seq<char>)
    requires
        a.len() <= b.len(),
        b.subrange(0, a.len() as int) == a,
    ensures
        (b + c).subrange(0, a.len() as int) == a,
        a.len() <= (b + c).len(),
{
    assert((b + c).subrange(0, a.len() as int) =~= b.subrange(0, a.len() as int));
}

/// Writes the gnuplot script of a benchmark's chart (see `gnuplot_text`):
/// title, size, key, axes and one plot command per measured line, reading
/// the data from `path` with extension `.dat` and writing the chart to
/// `path` with extension `.pdf`.
#[verifier::rlimit(50)]
pub fn gnuplot_script(
    title: &str,
    style: ChartStyle,
    path: &str,
    available: usize,
    max_y: u64,
    lines: &Vec<(String, ChartLineStyle)>,
) -> (script: String)
    requires
        lines.len() + 2 <= u64::MAX,
        forall|k: int| 0 <= k < lines.len() ==> style_fits(#[trigger] lines@[k].1),
    ensures
        script@ == gnuplot_text(title@, style, path@, available, max_y, lines@),
        (style == ChartStyle::Small || style == ChartStyle::SmallWithKey)
            ==> script@.subrange(size_line_at(title@), size_line_at(title@) + 30) == "set terminal pdf size 2.2,2.0\n"@,
        (style == ChartStyle::WithKey || style == ChartStyle::WithoutKey)
            ==> script@.subrange(size_line_at(title@), size_line_at(title@) + 30) == "set terminal pdf size 3.2,2.9\n"@,
        style == ChartStyle::SmallWithKey ==> script@.subrange(key_lines_at(title@, path@), key_lines_at(title@, path@) + 61)
            == "set key on\nset key top left Left reverse\nset key samplen 1.4\n"@,
        style == ChartStyle::WithKey ==> script@.subrange(key_lines_at(title@, path@), key_lines_at(title@, path@) + 61)
            == "set key on\nset key top left Left reverse\nset key samplen 2.5\n"@,
        (style == ChartStyle::Small || style == ChartStyle::WithoutKey)
            ==> script@.subrange(key_lines_at(title@, path@), key_lines_at(title@, path@) + 12) == "set key off\n"@,
{
    let small = match style {
        ChartStyle::Small | ChartStyle::SmallWithKey => true,
        _ => false,
    };
    let key = match style {
        ChartStyle::WithKey | ChartStyle::SmallWithKey => true,
        _ => false,
    };
    let max_threads: u64 = if available < 32 { available as u64 } else { 32 };
    let mut s = String::from_str("set title \"");
    s.append(title);
    s.append("\"\n");
    if small {
        s.append("set terminal pdf size 2.2,2.0\n");
    } else {
        s.append("set terminal pdf size 3.2,2.9\n");
    }
    s.append("set output \"");
    s.append(path);
    s.append(".pdf\"\n");
    let ghost head = s@;
    if key {
        s.append("set key on\n");
        s.append("set key top left Left reverse\n");
        if small {
            s.append("set key samplen 1.4\n");
        } else {
            s.append("set key samplen 2.5\n");
        }
    } else {
        s.append("set key off\n");
    }
    let ghost key_part = if has_key(style) {
        "set key on\n"@ + "set key top left Left reverse\n"@
            + (if is_small(style) { "set key samplen 1.4\n"@ } else { "set key samplen 2.5\n"@ })
    } else {
        "set key off\n"@
    };
    assert(s@ =~= head + key_part);
    s.append("set xrange [1:");
    push_decimal(&mut s, max_threads);
    s.append("]\n");
    s.append("set xtics (1");
    let ghost before_tics = s@;
    let mut i: u64 = 4;
    while i <= max_threads
        invariant
            max_threads <= 32,
            4 <= i <= max_threads + 4,
            before_tics + xtics(4, max_threads as int) == s@ + xtics(i as int, max_threads as int),
        decreases max_threads + 4 - i,
    {
        let ghost prev = s@;
        s.append(", ");
        push_decimal(&mut s, i);
        assert(xtics(i as int, max_threads as int) == ", "@ + decimal(i as nat) + xtics(i + 4, max_threads as int));
        assert(s@ + xtics(i + 4, max_threads as int) =~= prev + xtics(i as int, max_threads as int));
        i = i + 4;
    }
    assert(xtics(i as int, max_threads as int) == Seq::<char>::empty());
    assert(s@ =~= before_tics + xtics(4, max_threads as int));
    s.append(")\n");
    s.append("set xlabel \"Number of threads\"\n");
    s.append("set yrange [0:");
    push_decimal(&mut s, max_y);
    s.append("]\n");
    let ghost before_ytics = s@;
    if max_y == 9 {
        s.append("set ytics (0, 2, 4, 6, 8)\n");
    } else if max_y == 5 {
        s.append("set ytics (0, 1, 2, 3, 4)\n");
    }
    let ghost ytics_part = if max_y == 9 {
        "set ytics (0, 2, 4, 6, 8)\n"@
    } else if max_y == 5 {
        "set ytics (0, 1, 2, 3, 4)\n"@
    } else {
        Seq::empty()
    };
    assert(s@ =~= before_ytics + ytics_part);
    s.append("set ylabel \"Speedup\"\n");
    s.append("plot ");
    let ghost before_plot = s@;
    let mut idx: usize = 0;
    while idx < lines.len()
        invariant
            idx <= lines.len(),
            lines.len() + 2 <= u64::MAX,
            forall|k: int| 0 <= k < lines.len() ==> style_fits(#[trigger] lines@[k].1),
            s@ == before_plot + plot_entries(path@, lines@.take(idx as int)),
        decreases lines.len() - idx,
    {
        let ghost prev = s@;
        if idx != 0 {
            s.append(", \\\n  ");
        }
        let ghost sep = if idx == 0 { Seq::<char>::empty() } else { ", \\\n  "@ };
        assert(s@ =~= prev + sep);
        s.append("'");
        s.append(path);
        s.append(".dat' using 1:");
        push_decimal(&mut s, idx as u64 + 2);
        s.append(" title \"");
        s.append(lines[idx].0.as_str());
        s.append("\" ");
        let style_text = chart_line_style_to_str(lines[idx].1);
        s.append(style_text.as_str());
        s.append(" with linespoints");
        proof {
            let t = lines@.take(idx + 1);
            assert(t.drop_last() =~= lines@.take(idx as int));
            assert(t.last() == lines@[idx as int]);
            assert(s@ =~= prev + sep + plot_entry(path@, idx as int, lines@[idx as int].0@, lines@[idx as int].1));
        }
        idx = idx + 1;
    }
    assert(lines@.take(lines.len() as int) =~= lines@);
    s.append("\n");
    assert(s@ =~= gnuplot_text(title@, style, path@, available, max_y, lines@));
    proof {
        lemma_chart_size_and_key(title@, style, path@, available, max_y, lines@);
    }
    s
}

/// The column names of the data file: a tab and the name of each line.
pub open spec fn header_columns(lines: Seq<(String, ChartLineStyle)>) -> Seq<char>
    decreases lines.len(),
{
    if lines.len() == 0 {
        Seq::empty()
    } else {
        header_columns(lines.drop_last()) + "\t"@ + lines.last().0@
    }
}

/// The header of a benchmark's data file: its name, what the numbers mean,
/// and the names of the columns.
pub open spec fn data_header_text(name: Seq<char>, lines: Seq<(String, ChartLineStyle)>) -> Seq<char> {
    "# Benchmark "@ + name + "\n"@ + "# Speedup compared to a sequential implementation.\n"@ + "# NCPU"@
        + header_columns(lines) + "\n"@
}

/// The header of a data file: the benchmark's name, a line saying the
/// numbers are speedups over a sequential implementation, and the column
/// line, `# NCPU` followed by a tab and the name of each line, in order.
pub proof fn lemma_data_header(name: Seq<char>, a: Seq<(String, ChartLineStyle)>, b: Seq<(String, ChartLineStyle)>, x: (String, ChartLineStyle))
    ensures
        data_header_text(name, a) == "# Benchmark "@ + name + "\n# Speedup compared to a sequential implementation.\n# NCPU"@
            + header_columns(a) + "\n"@,
        header_columns(a + b) == header_columns(a) + header_columns(b),
        header_columns(seq![x]) == "\t"@ + x.0@,
    decreases b.len(),
{
    reveal_strlit("# Benchmark ");
    reveal_strlit("\n");
    reveal_strlit("# Speedup compared to a sequential implementation.\n");
    reveal_strlit("# NCPU");
    reveal_strlit("\n# Speedup compared to a sequential implementation.\n# NCPU");
    assert(data_header_text(name, a) =~= "# Benchmark "@ + name + "\n# Speedup compared to a sequential implementation.\n# NCPU"@
        + header_columns(a) + "\n"@);
    if b.len() == 0 {
        assert(a + b =~= a);
        assert(header_columns(a) + header_columns(b) =~= header_columns(a));
    } else {
        lemma_data_header(name, a, b.drop_last(), x);
        assert((a + b).drop_last() =~= a + b.drop_last());
        assert((a + b).last() == b.last());
        assert(header_columns(a + b) =~= header_columns(a) + header_columns(b));
    }
    assert(seq![x].drop_last() =~= Seq::<(String, ChartLineStyle)>::empty());
    assert(seq![x].last() == x);
    assert(header_columns(seq![x].drop_last()) =~= Seq::<char>::empty());
    assert(header_columns(seq![x]) == header_columns(seq![x].drop_last()) + "\t"@ + x.0@);
    assert(header_columns(seq![x]) =~= "\t"@ + x.0@);
}

/// Writes the header of a benchmark's data file (see `data_header_text`).
pub fn data_header(name: &str, lines: &Vec<(String, ChartLineStyle)>) -> (text: String)
    ensures
        text@ == data_header_text(name@, lines@),
{
    let mut s = String::from_str("# Benchmark ");
    s.append(name);
    s.append("\n");
    s.append("# Speedup compared to a sequential implementation.\n");
    s.append("# NCPU");
    let ghost start = s@;
    let mut idx: usize = 0;
    while idx < lines.len()
        invariant
            idx <= lines.len(),
            s@ == start + header_columns(lines@.take(idx as int)),
        decreases lines.len() - idx,
    {
        s.append("\t");
        s.append(lines[idx].0.as_str());
        proof {
            let t = lines@.take(idx + 1);
            assert(t.drop_last() =~= lines@.take(idx as int));
            assert(t.last() == lines@[idx as int]);
        }
        idx = idx + 1;
        assert(s@ =~= start + header_columns(lines@.take(idx as int)));
    }
    assert(lines@.take(lines.len() as int) =~= lines@);
    s.append("\n");
    assert(s@ =~= data_header_text(name@, lines@));
    s
}

/// The set of cores of the first `k` workers, as a bit mask: bit `c` is set
/// for every core `c` among `mapping[0..k]`.
pub open spec fn affinity_mask_spec(mapping: Seq<usize>, k: int) -> u128
    decreases k,
{
    if k <= 0 {
        0
    } else {
        affinity_mask_spec(mapping, k - 1) | (1u128 << mapping[k - 1])
    }
}

proof fn lemma_or_bit(a: u128, m: usize, c: usize)
    requires
        m < 128,
        c < 128,
    ensures
        ((a | (1u128 << m)) >> c) & 1 == (if c == m { 1u128 } else { (a >> c) & 1 }),
{
    assert(((a | (1u128 << m)) >> c) & 1 == (if c == m { 1u128 } else { (a >> c) & 1 })) by (bit_vector)
        requires m < 128, c < 128;
}

/// The mask of the first `k` workers' cores has bit `c` set exactly when
/// one of those workers is pinned to core `c`.
pub proof fn lemma_affinity_mask_bits(mapping: Seq<usize>, k: int, c: usize)
    requires
        0 <= k <= mapping.len(),
        forall|i: int| 0 <= i < k ==> #[trigger] mapping[i] < 128,
        c < 128,
    ensures
        ((affinity_mask_spec(mapping, k) >> c) & 1 == 1) <==> exists|i: int| 0 <= i < k && #[trigger] mapping[i] == c,
    decreases k,
{
    if k == 0 {
        assert((0u128 >> c) & 1 == 0) by (bit_vector);
    } else {
        lemma_affinity_mask_bits(mapping, k - 1, c);
        lemma_or_bit(affinity_mask_spec(mapping, k - 1), mapping[k - 1], c);
        if mapping[k - 1] == c {
            assert(mapping[k - 1] == c);
        }
        if exists|i: int| 0 <= i < k && #[trigger] mapping[i] == c {
            let i = choose|i: int| 0 <= i < k && #[trigger] mapping[i] == c;
            if i < k - 1 {
                assert(exists|j: int| 0 <= j < k - 1 && #[trigger] mapping[j] == c);
            }
        }
    }
}

/// The bit mask of the cores the first `thread_count` workers are pinned
/// to, as `taskset` takes it.
pub fn affinity_mask(mapping: &Vec<usize>, thread_count: usize) -> (mask: u128)
    requires
        thread_count <= mapping.len(),
        forall|i: int| 0 <= i < thread_count ==> #[trigger] mapping[i] < 128,
    ensures
        mask == affinity_mask_spec(mapping@, thread_count as int),
{
    let mut mask: u128 = 0;
    let mut i: usize = 0;
    while i < thread_count
        invariant
            i <= thread_count <= mapping.len(),
            forall|j: int| 0 <= j < thread_count ==> #[trigger] mapping[j] < 128,
            mask == affinity_mask_spec(mapping@, i as int),
        decreases thread_count - i,
    {
        mask = mask | (1u128 << mapping[i]);
        i = i + 1;
    }
    mask
}

/// The affinity argument of `taskset` for the first `thread_count` workers:
/// the mask of their cores in hexadecimal.
pub fn affinity_argument(mapping: &Vec<usize>, thread_count: usize) -> (arg: String)
    requires
        thread_count <= mapping.len(),
        forall|i: int| 0 <= i < thread_count ==> #[trigger] mapping[i] < 128,
    ensures
        arg@ == hex(affinity_mask_spec(mapping@, thread_count as int) as nat),
{
    let mut s = String::new();
    push_hex(&mut s, affinity_mask(mapping, thread_count));
    assert(s@ =~= hex(affinity_mask_spec(mapping@, thread_count as int) as nat));
    s
}

} // verus!
