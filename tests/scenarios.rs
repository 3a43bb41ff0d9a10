use onebrc::aggregate::{can_merge, merge_into};
use onebrc::chunk::plan_chunks;
use onebrc::format::format_results;
use onebrc::map::ResultMap;
use onebrc::parser::{parser, parser_branchless};

fn run(input: &str) -> String {
    let table = parser(input.as_bytes()).unwrap();
    String::from_utf8(format_results(&table)).unwrap()
}

fn run_branchless(input: &str) -> String {
    let table = parser_branchless(input.as_bytes()).unwrap();
    String::from_utf8(format_results(&table)).unwrap()
}

fn run_threads(input: &str, threads: usize) -> String {
    let data = input.as_bytes();
    let mut global = ResultMap::new();
    for (start, end) in plan_chunks(data, threads) {
        let part = parser_branchless(&data[start..end]).unwrap();
        assert!(can_merge(&global, &part));
        merge_into(&mut global, &part).unwrap();
    }
    String::from_utf8(format_results(&global)).unwrap()
}

#[test]
fn single_line() {
    assert_eq!(run("Hamburg;12.0\n"), "{Hamburg=12.0/12.0/12.0}");
}

#[test]
fn two_stations() {
    let input = "Abha;-23.0\nAbha;23.0\nZurich;0.1\n";
    assert_eq!(run(input), "{Abha=-23.0/0.0/23.0, Zurich=0.1/0.1/0.1}");
    assert_eq!(run_branchless(input), "{Abha=-23.0/0.0/23.0, Zurich=0.1/0.1/0.1}");
}

#[test]
fn repeated_with_averaging() {
    assert_eq!(run("X;1.0\nX;2.0\nX;3.0\nX;4.0\nX;5.0\n"), "{X=1.0/3.0/5.0}");
}

#[test]
fn hundreds_digit_and_sign() {
    assert_eq!(run("Y;-99.9\nY;99.9\n"), "{Y=-99.9/0.0/99.9}");
    assert_eq!(run_branchless("Y;-99.9\nY;99.9\n"), "{Y=-99.9/0.0/99.9}");
}

#[test]
fn short_name() {
    assert_eq!(run("A;0.1\nA;-0.1\n"), "{A=-0.1/0.0/0.1}");
    assert_eq!(run_branchless("A;0.1\nA;-0.1\n"), "{A=-0.1/0.0/0.1}");
}

#[test]
fn ordering() {
    assert_eq!(run("b;1.0\na;1.0\n"), "{a=1.0/1.0/1.0, b=1.0/1.0/1.0}");
}

#[test]
fn empty_input() {
    assert_eq!(run(""), "{}");
}

#[test]
fn names_sort_by_bytes_not_by_item_text() {
    assert_eq!(run("a-b;1.0\na;2.0\n"), "{a=2.0/2.0/2.0, a-b=1.0/1.0/1.0}");
    assert_eq!(run("b;1.0\nB;1.0\nab;1.0\na;1.0\n"), "{B=1.0/1.0/1.0, a=1.0/1.0/1.0, ab=1.0/1.0/1.0, b=1.0/1.0/1.0}");
}

#[test]
fn minimum_and_maximum_are_the_extremes() {
    let input = "s;3.0\nt;1.0\ns;-7.5\ns;12.5\ns;0.0\n";
    assert_eq!(run(input), "{s=-7.5/2.0/12.5, t=1.0/1.0/1.0}");
}

#[test]
fn mean_rounds_half_to_even() {
    assert_eq!(run("m;0.1\nm;0.2\n"), "{m=0.1/0.2/0.2}");
    assert_eq!(run("m;0.2\nm;0.3\n"), "{m=0.2/0.2/0.3}");
    assert_eq!(run("m;-0.1\nm;-0.2\n"), "{m=-0.2/-0.2/-0.1}");
    assert_eq!(run("m;1.0\nm;1.0\nm;1.1\n"), "{m=1.0/1.0/1.1}");
    assert_eq!(run("m;-0.1\nm;0.0\nm;0.0\n"), "{m=-0.1/0.0/0.0}");
}

#[test]
fn each_station_appears_once() {
    let input = "a;1.0\nb;2.0\na;3.0\nc;4.0\nb;5.0\n";
    let out = run(input);
    assert_eq!(out, "{a=1.0/2.0/3.0, b=2.0/3.5/5.0, c=4.0/4.0/4.0}");
    assert_eq!(out.matches("a=").count(), 1);
}

#[test]
fn reordering_lines_keeps_output() {
    let a = "x;1.0\ny;-2.0\nx;3.5\nz;0.0\ny;9.9\n";
    let b = "y;9.9\nz;0.0\nx;3.5\ny;-2.0\nx;1.0\n";
    assert_eq!(run(a), run(b));
}

#[test]
fn concatenation_is_the_merge_of_both_runs() {
    let a = "x;1.0\ny;-2.0\n";
    let b = "x;3.5\nz;0.0\n";
    let mut left = parser(a.as_bytes()).unwrap();
    let right = parser(b.as_bytes()).unwrap();
    merge_into(&mut left, &right).unwrap();
    let merged = String::from_utf8(format_results(&left)).unwrap();
    assert_eq!(merged, run(&format!("{a}{b}")));
    assert_eq!(merged, "{x=1.0/2.2/3.5, y=-2.0/-2.0/-2.0, z=0.0/0.0/0.0}");
}

#[test]
fn any_thread_count_gives_the_same_output() {
    let mut input = String::new();
    for i in 0..200 {
        input.push_str(&format!("st{};{}.{}\n", i % 7, (i * 37) % 100 - 50, i % 10));
    }
    let one = run_threads(&input, 1);
    assert_eq!(one, run(&input));
    for threads in 2..12 {
        assert_eq!(run_threads(&input, threads), one);
    }
    assert_eq!(run_threads(&input, 1000), one);
}
