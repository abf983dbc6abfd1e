use rowrender::layout::{
    Aggregate, ColumnWidth, Field, PrettyPrinter, Record, RenderConfig, RenderError, TerminalSize,
};
use rowrender::renderer::{Renderer, Row};
use rowrender::text::format_with_ellipsis;

fn field(name: &str, value: &str) -> Field {
    Field { name: name.to_string(), value: value.to_string() }
}

fn record(raw: &str, fields: &[(&str, &str)]) -> Record {
    Record { raw: raw.to_string(), fields: fields.iter().map(|(n, v)| field(n, v)).collect() }
}

fn config(min_buffer: usize, max_buffer: usize, format: Option<&str>) -> RenderConfig {
    RenderConfig {
        floating_points: 2,
        min_buffer,
        max_buffer,
        format: format.map(|f| f.to_string()),
    }
}

fn aggregate(rows: &[(&str, &str, &str)]) -> Aggregate {
    Aggregate {
        columns: vec!["kc1".to_string(), "kc2".to_string(), "count".to_string()],
        rows: rows
            .iter()
            .map(|(a, b, c)| vec![field("kc1", a), field("kc2", b), field("count", c)])
            .collect(),
    }
}

fn width(pp: &PrettyPrinter, name: &str) -> usize {
    pp.column_widths.iter().rev().find(|c: &&ColumnWidth| c.name == name).map_or(0, |c| c.width)
}

const LONG: &str = "0bcdefghijklmnopqrztuvwxyz 1bcdefghijklmnopqrztuvwxyz 2bcdefghijklmnopqrztuvwxyz";
const LONG_KEY: &str = "k40000 k40000k50000k60000k70000k80000";

#[test]
fn print_raw() {
    let rec = record("Hello, World!\n", &[]);
    let mut pp = PrettyPrinter::new(config(1, 4, None), None);
    assert_eq!(pp.format_record(&rec).unwrap(), "Hello, World!");
}

#[test]
fn pretty_print_record() {
    let mut pp = PrettyPrinter::new(config(1, 4, None), None);
    let rec = record("", &[("k1", "5"), ("k2", "5.50"), ("k3", "str")]);
    assert_eq!(pp.format_record(&rec).unwrap(), "[k1=5]     [k2=5.50]    [k3=str]");
    let rec = record("", &[("k1", "955"), ("k2", "5.50"), ("k3", "str3")]);
    assert_eq!(pp.format_record(&rec).unwrap(), "[k1=955]   [k2=5.50]    [k3=str3]");
    let rec = record(
        "",
        &[("k1", "here is a amuch longer stsring"), ("k2", "5.50"), ("k3", "str3")],
    );
    assert_eq!(
        pp.format_record(&rec).unwrap(),
        "[k1=here is a amuch longer stsring]    [k2=5.50]    [k3=str3]"
    );
    let rec = record("", &[("k1", "955"), ("k2", "5.50"), ("k3", "str3")]);
    assert_eq!(
        pp.format_record(&rec).unwrap(),
        "[k1=955]                               [k2=5.50]    [k3=str3]"
    );
}

#[test]
fn pretty_print_record_formatted() {
    let mut pp =
        PrettyPrinter::new(config(1, 4, Some("{k1:>3} k2={k2:<10.3} k3[{k3}]")), None);
    let rec = record("", &[("k1", "5"), ("k2", "5.5000001"), ("k3", "str")]);
    assert_eq!(pp.format_record(&rec).unwrap(), "  5 k2=5.5        k3[str]");
    let rec = record("", &[("k1", "955"), ("k2", "5.5000001"), ("k3", "str3")]);
    assert_eq!(pp.format_record(&rec).unwrap(), "955 k2=5.5        k3[str3]");
    let rec = record(
        "",
        &[("k1", "here is a amuch longer stsring"), ("k2", "5.5000001"), ("k3", "str3")],
    );
    assert_eq!(
        pp.format_record(&rec).unwrap(),
        "here is a amuch longer stsring k2=5.5        k3[str3]"
    );
}

#[test]
fn pretty_print_record_too_long() {
    let rec = record("", &[("k1", "5"), ("k2", "5.50"), ("k3", "str")]);
    let mut pp =
        PrettyPrinter::new(config(1, 4, None), Some(TerminalSize { width: 10, height: 2 }));
    assert_eq!(pp.format_record(&rec).unwrap(), "[k1=5][k2=5.50][k3=str]");
}

#[test]
fn pretty_print_aggregate() {
    let agg = aggregate(&[("k1", "k2", "100"), ("k300", "k40000", "500")]);
    assert_eq!(agg.rows.len(), 2);
    let mut pp =
        PrettyPrinter::new(config(2, 4, None), Some(TerminalSize { width: 100, height: 10 }));
    println!("{}", pp.format_aggregate(&agg));
    assert_eq!(
        "kc1    kc2       count\n--------------------------\nk1     k2        100\nk300   k40000    500\n",
        pp.format_aggregate(&agg)
    );
}

#[test]
fn pretty_print_aggregate_too_long() {
    let agg = aggregate(&[("k1", LONG_KEY, LONG), ("k1", "k2", LONG), ("k300", LONG_KEY, "500")]);
    let max_width = 60;
    let mut pp = PrettyPrinter::new(
        config(2, 4, None),
        Some(TerminalSize { width: max_width as u16, height: 10 }),
    );
    println!("{}", pp.format_aggregate(&agg));
    let result = pp.format_aggregate(&agg);
    for line in result.lines() {
        assert!(
            line.chars().count() <= max_width as usize,
            "Expected `{}` to be shorter than {} -- it was {}",
            line,
            max_width,
            line.len()
        );
    }
    assert_eq!(
        pp.format_aggregate(&agg),
        "kc1    kc2                       count\n------------------------------------------------------------\nk1     k40000 k40000k50000k6000… 0bcdefghijklmnopqrztuvwxy…\nk1     k2                        0bcdefghijklmnopqrztuvwxy…\nk300   k40000 k40000k50000k6000… 500\n"
    );
}

#[test]
fn test_format_with_ellipsis() {
    assert_eq!(format_with_ellipsis("abcde", 4), "ab… ");
    assert_eq!(format_with_ellipsis("abcde", 10), "abcde     ");
}

#[test]
fn fit_has_exact_width_for_every_width() {
    for text in ["", "a", "abcde", "héllo wörld", "日本語テキスト"] {
        for w in 0..20usize {
            assert_eq!(format_with_ellipsis(text, w).chars().count(), w, "{:?} {}", text, w);
        }
    }
}

#[test]
fn fit_counts_characters_not_bytes() {
    assert_eq!(format_with_ellipsis("ééé", 3), "ééé");
    assert_eq!(format_with_ellipsis("éééé", 3), "é… ");
    assert_eq!(format_with_ellipsis("abc", 1), "a");
    assert_eq!(format_with_ellipsis("abc", 0), "");
}

#[test]
fn record_widths_never_shrink_without_reset() {
    let mut pp = PrettyPrinter::new(config(1, 4, None), None);
    let mut last = (0, 0);
    for value in ["a", "a much longer value", "b", "", "mid value"] {
        pp.format_record(&record("", &[("k1", value), ("k2", value)])).unwrap();
        let now = (width(&pp, "k1"), width(&pp, "k2"));
        assert!(now.0 >= last.0 && now.1 >= last.1);
        last = now;
    }
    assert_eq!(last, (23, 23));
}

#[test]
fn record_layout_resets_once_on_overflow() {
    let mut pp =
        PrettyPrinter::new(config(1, 4, None), Some(TerminalSize { width: 15, height: 5 }));
    assert_eq!(pp.format_record(&record("", &[("a", "1")])).unwrap(), "[a=1]");
    assert_eq!(pp.format_record(&record("", &[("b", "2")])).unwrap(), "[b=2]");
    assert_eq!(pp.column_order, vec!["b".to_string()]);
    assert_eq!(pp.column_widths.len(), 1);
}

#[test]
fn record_new_columns_are_sorted() {
    let mut pp = PrettyPrinter::new(config(0, 0, None), None);
    let out = pp.format_record(&record("", &[("zz", "1"), ("aa", "2"), ("mm", "3")])).unwrap();
    assert_eq!(out, "[aa=2] [mm=3] [zz=1]");
    let out = pp.format_record(&record("", &[("bb", "4"), ("zz", "5")])).unwrap();
    assert_eq!(out, "              [zz=5] [bb=4]");
}

#[test]
fn raw_record_ignores_buffers_and_terminal() {
    let mut pp =
        PrettyPrinter::new(config(0, 9, None), Some(TerminalSize { width: 3, height: 1 }));
    assert_eq!(pp.format_record(&record("  raw text \t\n", &[])).unwrap(), "  raw text");
}

#[test]
fn template_error_is_reported() {
    let mut pp = PrettyPrinter::new(config(1, 4, Some("{missing}")), None);
    let res = pp.format_record(&record("", &[("k1", "5")]));
    assert_eq!(res, Err(RenderError::Template));
    let mut pp = PrettyPrinter::new(config(1, 4, Some("{k1")), None);
    assert_eq!(pp.format_record(&record("", &[("k1", "5")])), Err(RenderError::Template));
}

#[test]
fn aggregate_without_rows() {
    let mut pp = PrettyPrinter::new(config(1, 4, None), None);
    let agg = Aggregate { columns: vec!["a".to_string()], rows: vec![] };
    assert_eq!(pp.format_aggregate(&agg), "No data\n");
}

#[test]
fn aggregate_shrinks_within_budget() {
    let agg = aggregate(&[("k1", LONG_KEY, LONG), ("k300", LONG, LONG_KEY)]);
    for budget in [10u16, 17, 40, 61, 99] {
        let mut pp =
            PrettyPrinter::new(config(2, 4, None), Some(TerminalSize { width: budget, height: 50 }));
        pp.format_aggregate(&agg);
        let total: usize = pp.column_widths.iter().map(|c| c.width).sum();
        assert!(total <= budget as usize, "{} > {}", total, budget);
    }
}

#[test]
fn aggregate_default_budget_without_terminal() {
    let long: String = "x".repeat(300);
    let agg = Aggregate {
        columns: vec!["a".to_string()],
        rows: vec![vec![field("a", &long)]],
    };
    let mut pp = PrettyPrinter::new(config(1, 4, None), None);
    let out = pp.format_aggregate(&agg);
    assert_eq!(pp.column_widths[0].width, 240);
    assert_eq!(out.lines().nth(2).unwrap().chars().count(), 239);
}

#[test]
fn aggregate_render_is_deterministic() {
    let agg = aggregate(&[("k1", "k2", "100"), ("k300", "k40000", "500")]);
    let mut p = PrettyPrinter::new(config(2, 4, None), None);
    let mut q = PrettyPrinter::new(config(2, 4, None), None);
    assert_eq!(p.format_aggregate(&agg), q.format_aggregate(&agg));
}

#[test]
fn aggregate_clipped_to_terminal_height() {
    let agg = aggregate(&[("a", "b", "1"), ("c", "d", "2"), ("e", "f", "3")]);
    let mut pp =
        PrettyPrinter::new(config(1, 4, None), Some(TerminalSize { width: 80, height: 4 }));
    let out = pp.format_aggregate(&agg);
    assert_eq!(out.matches('\n').count(), 3);
    assert!(out.ends_with("a      b      1\n"));
}

#[test]
fn plain_output_writes_only_final_snapshot() {
    let mut r = Renderer::new(config(1, 4, None), 100, None);
    let mut writes = Vec::new();
    for (i, count) in ["1", "2", "3", "4"].iter().enumerate() {
        let agg = aggregate(&[("a", "b", count)]);
        if let Some(text) = r.render(&Row::Aggregate(agg), i == 3, i as u64 * 1000).unwrap() {
            writes.push(text);
        }
    }
    assert_eq!(writes.len(), 1);
    assert!(writes[0].contains("a      b      4"));
}

#[test]
fn live_output_throttles_and_erases() {
    let mut r = Renderer::new(config(1, 4, None), 100, Some(TerminalSize { width: 80, height: 20 }));
    let agg = aggregate(&[("a", "b", "1")]);
    let first = r.render(&Row::Aggregate(agg), false, 1000).unwrap().unwrap();
    assert!(!first.starts_with('\u{1b}'));
    assert_eq!(r.reset_sequence, "\u{1b}[1A\u{1b}[2K".repeat(3));
    assert!(!r.should_print(1100));
    let agg = aggregate(&[("a", "b", "2")]);
    assert_eq!(r.render(&Row::Aggregate(agg), false, 1050).unwrap(), None);
    let agg = aggregate(&[("a", "b", "3")]);
    let third = r.render(&Row::Aggregate(agg), false, 1101).unwrap().unwrap();
    assert!(third.starts_with(&"\u{1b}[1A\u{1b}[2K".repeat(3)));
    assert_eq!(r.last_print, Some(1101));
    let agg = aggregate(&[("a", "b", "4")]);
    assert!(r.render(&Row::Aggregate(agg), true, 1102).unwrap().is_some());
}

#[test]
fn records_always_written_with_newline() {
    let mut r = Renderer::new(config(1, 4, None), 100, None);
    let out = r.render(&Row::Record(record("plain line  ", &[])), false, 0).unwrap();
    assert_eq!(out, Some("plain line\n".to_string()));
    assert!(!r.should_print(10_000));
}

#[test]
fn aggregate_clip_counts_line_breaks_inside_cells() {
    let agg = aggregate(&[("a\nb", "c", "1"), ("d", "e", "2"), ("f", "g", "3")]);
    let mut pp =
        PrettyPrinter::new(config(1, 4, None), Some(TerminalSize { width: 80, height: 4 }));
    let out = pp.format_aggregate(&agg);
    assert_eq!(out.matches('\n').count(), 3);
    assert!(out.ends_with("\na\n"));
}

#[test]
fn aggregate_rerender_keeps_text_and_widths() {
    let agg = aggregate(&[("k1", "k2", "100"), ("k300", "k40000", "500")]);
    let mut pp =
        PrettyPrinter::new(config(2, 4, None), Some(TerminalSize { width: 100, height: 10 }));
    let first = pp.format_aggregate(&agg);
    let widths: Vec<(String, usize)> =
        pp.column_widths.iter().map(|c| (c.name.clone(), c.width)).collect();
    assert_eq!(pp.format_aggregate(&agg), first);
    let again: Vec<(String, usize)> =
        pp.column_widths.iter().map(|c| (c.name.clone(), c.width)).collect();
    assert_eq!(widths, again);
}

#[test]
fn column_names_stay_unique() {
    let mut pp = PrettyPrinter::new(config(1, 4, None), None);
    pp.format_record(&record("", &[("b", "1"), ("a", "2")])).unwrap();
    pp.format_record(&record("", &[("a", "333333"), ("c", "4")])).unwrap();
    pp.format_aggregate(&aggregate(&[("x", "y", "1")]));
    let mut names: Vec<&String> = pp.column_widths.iter().map(|c| &c.name).collect();
    let n = names.len();
    names.sort();
    names.dedup();
    assert_eq!(names.len(), n);
    assert_eq!(pp.column_order, vec!["a".to_string(), "b".to_string(), "c".to_string()]);
}
