use workassisting::benchmark::{
    affinity_argument, affinity_mask, average_micros, chart_line_style_to_str, data_header, gnuplot_script, line_style, measured_thread_counts,
    result_path, ChartLineStyle, ChartStyle, LineStyle,
};

#[test]
fn work_assisting_style() {
    assert_eq!(
        line_style(ChartLineStyle::WorkAssisting(1)),
        LineStyle { point_size_tenths: 4, line_width: 2, point_type: 7, red: 50, green: 0x0A, blue: 0x35 }
    );
    assert_eq!(line_style(ChartLineStyle::WorkAssisting(6)).red, 44);
}

#[test]
fn dynamic_style() {
    let s = line_style(ChartLineStyle::Dynamic(64, 1, 4));
    assert_eq!((s.red, s.green, s.blue), (128, 20, 120));
    assert_eq!((s.point_size_tenths, s.line_width, s.point_type), (7, 2, 1));
}

#[test]
fn fixed_styles() {
    let s = line_style(ChartLineStyle::WorkStealing);
    assert_eq!((s.point_type, s.red, s.green, s.blue), (6, 0x5B, 0x21, 0x82));
    let s = line_style(ChartLineStyle::OmpTask);
    assert_eq!((s.point_type, s.red, s.green, s.blue), (12, 0xF3, 0x96, 0x5E));
}

#[test]
fn thread_counts() {
    assert_eq!(measured_thread_counts(5), vec![1, 2, 3, 4]);
    assert_eq!(measured_thread_counts(0), Vec::<usize>::new());
    assert_eq!(measured_thread_counts(100).len(), 14);
    assert_eq!(measured_thread_counts(16), vec![1, 2, 3, 4, 6, 8, 10, 12, 14, 16]);
}

#[test]
fn average() {
    assert_eq!(average_micros(1000, 3), 333);
    assert_eq!(average_micros(0, 1), 0);
}

#[test]
fn line_style_text_work_assisting() {
    assert_eq!(
        chart_line_style_to_str(ChartLineStyle::WorkAssisting(5)),
        "pointsize 0.4 lw 2 pt 7 linecolor rgb \"#FA0A35\""
    );
}

#[test]
fn line_style_text_dynamic() {
    assert_eq!(
        chart_line_style_to_str(ChartLineStyle::Dynamic(1, 1, 1)),
        "pointsize 0.7 lw 2 pt 1 linecolor rgb \"#0A141E\""
    );
}

#[test]
fn line_style_text_fixed_styles() {
    assert_eq!(chart_line_style_to_str(ChartLineStyle::OmpTask), "pointsize 0.7 lw 1 pt 12 linecolor rgb \"#F3965E\"");
    assert_eq!(chart_line_style_to_str(ChartLineStyle::OmpDynamic), "pointsize 0.7 lw 1 pt 4 linecolor rgb \"#001240\"");
    assert_eq!(chart_line_style_to_str(ChartLineStyle::StaticPinned), "pointsize 0.7 lw 1 pt 3 linecolor rgb \"#24A793\"");
}

#[test]
fn result_path_cleans_name() {
    assert_eq!(result_path("Sort (n = 262,144)"), "./results/Sort_n___262,144");
    assert_eq!(result_path("LUD (n = 256, m = 4)"), "./results/LUD_n___256,_m___4");
}

#[test]
fn gnuplot_script_text() {
    let lines = vec![
        ("Static".to_string(), ChartLineStyle::Static),
        ("Ours".to_string(), ChartLineStyle::WorkAssisting(1)),
    ];
    let script = gnuplot_script("Sum", ChartStyle::WithKey, "./results/Sum", 8, 9, &lines);
    let expected = "set title \"Sum\"\n\
set terminal pdf size 3.2,2.9\n\
set output \"./results/Sum.pdf\"\n\
set key on\n\
set key top left Left reverse\n\
set key samplen 2.5\n\
set xrange [1:8]\n\
set xtics (1, 4, 8)\n\
set xlabel \"Number of threads\"\n\
set yrange [0:9]\n\
set ytics (0, 2, 4, 6, 8)\n\
set ylabel \"Speedup\"\n\
plot './results/Sum.dat' using 1:2 title \"Static\" pointsize 0.7 lw 1 pt 2 linecolor rgb \"#5287C6\" with linespoints, \\\n  \
'./results/Sum.dat' using 1:3 title \"Ours\" pointsize 0.4 lw 2 pt 7 linecolor rgb \"#320A35\" with linespoints\n";
    assert_eq!(script, expected);
}

#[test]
fn gnuplot_script_small_without_key() {
    let script = gnuplot_script("T", ChartStyle::Small, "p", 64, 16, &vec![]);
    assert_eq!(
        script,
        "set title \"T\"\nset terminal pdf size 2.2,2.0\nset output \"p.pdf\"\nset key off\nset xrange [1:32]\n\
set xtics (1, 4, 8, 12, 16, 20, 24, 28, 32)\nset xlabel \"Number of threads\"\nset yrange [0:16]\n\
set ylabel \"Speedup\"\nplot \n"
    );
}

#[test]
fn data_file_header() {
    let lines = vec![
        ("Static".to_string(), ChartLineStyle::Static),
        ("Work stealing".to_string(), ChartLineStyle::WorkStealing),
    ];
    assert_eq!(
        data_header("Sum (n = 5)", &lines),
        "# Benchmark Sum (n = 5)\n# Speedup compared to a sequential implementation.\n# NCPU\tStatic\tWork stealing\n"
    );
    assert_eq!(
        data_header("X", &vec![]),
        "# Benchmark X\n# Speedup compared to a sequential implementation.\n# NCPU\n"
    );
}

#[test]
fn affinity_masks() {
    let mapping = vec![0, 1, 2, 3, 8, 9];
    assert_eq!(affinity_mask(&mapping, 0), 0);
    assert_eq!(affinity_mask(&mapping, 3), 0b111);
    assert_eq!(affinity_mask(&mapping, 6), 0x30F);
    assert_eq!(affinity_argument(&mapping, 6), "30F");
    assert_eq!(affinity_argument(&mapping, 0), "0");
    assert_eq!(affinity_argument(&vec![100], 1), format!("{:X}", 1u128 << 100));
}
