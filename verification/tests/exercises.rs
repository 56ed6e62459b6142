//! Tests for the companion modules: the cons list with its stack, line
//! searching, and the employee directory.

use sch_rs::cons_list::List;
use sch_rs::cons_list::Stack;
use sch_rs::cons_list::car;
use sch_rs::cons_list::cdr;
use sch_rs::cons_list::cons;
use sch_rs::cons_list::filter;
use sch_rs::cons_list::list_ref;
use sch_rs::employee::employee_manage;
use sch_rs::search;
use sch_rs::search_case_insensitive;

#[test]
fn basic() {
    let mut st = Stack::<i32>::new();

    for i in 1..10 {
        st.push(i);
    }

    for i in 9..0 {
        assert_eq!(st.pop().unwrap(), i);
    }
}

#[test]
fn stack_pops_in_reverse_order() {
    let mut st = Stack::<i32>::new();
    st.push(1);
    st.push(2);
    st.push(3);
    assert_eq!(st.pop(), Some(3));
    assert_eq!(st.pop(), Some(2));
    assert_eq!(st.pop(), Some(1));
    assert_eq!(st.pop(), None);
}

#[test]
fn cons_car_cdr() {
    let l = cons(1, cons(2, cons(3, List::Empty)));
    assert_eq!(*car(&l), 1);
    assert_eq!(*car(cdr(&l)), 2);
    assert_eq!(*list_ref(2, &l), 3);
}

#[test]
fn map_and_filter() {
    let l = cons(1, cons(2, cons(3, cons(4, List::Empty))));
    let doubled = sch_rs::cons_list::map(|x: &i32| x * 2, &l);
    assert_eq!(*car(&doubled), 2);
    assert_eq!(*list_ref(3, &doubled), 8);
    let even = filter(|x: &i32| x % 2 == 0, &l);
    assert_eq!(*car(&even), 2);
    assert_eq!(*list_ref(1, &even), 4);
}

#[test]
fn one_result() {
    let query = "duct";
    let contents = "Rust: \n productive \n fast \n pick it...";

    assert_eq!(search(query, contents).len(), 1);
}

#[test]
fn case_sensitive() {
    let query = "duct";
    let contents = "\
Rust:
safe, fast, productive.
Pick three.
Duct tape.";

    assert_eq!(vec!["safe, fast, productive."], search(query, contents));
}

#[test]
fn case_insensitive() {
    let query = "rUsT";
    let contents = "\
Rust:
safe, fast, productive.
Pick three.
Trust me.";

    assert_eq!(
        vec!["Rust:", "Trust me."],
        search_case_insensitive(query, contents)
    );
}

#[test]
fn search_empty_query_matches_every_line() {
    let contents = "a\nb\nc";
    assert_eq!(search("", contents), vec!["a", "b", "c"]);
}

#[test]
fn search_strips_carriage_returns() {
    let contents = "one\r\ntwo\r\n";
    assert_eq!(search("o", contents), vec!["one", "two"]);
}

#[test]
fn fib_of_ten() {
    assert_eq!(sch_rs::exercises::fib(10, 1, 1), 55);
    assert_eq!(sch_rs::exercises::fib(1, 1, 1), 1);
    assert_eq!(sch_rs::exercises::fib(2, 1, 1), 1);
}

#[test]
fn first_word_stops_at_space() {
    assert_eq!(sch_rs::exercises::first_word("hello world"), "hello");
    assert_eq!(sch_rs::exercises::first_word("hello"), "hello");
    assert_eq!(sch_rs::exercises::first_word(""), "");
}

#[test]
fn rectangle_areas() {
    let big = sch_rs::exercises::Rectangle { width: 8, height: 7 };
    let small = sch_rs::exercises::Rectangle::square(5);
    assert_eq!(big.area(), 56);
    assert_eq!(small.area(), 25);
    assert!(big.can_hold(&small));
    assert!(!small.can_hold(&big));
}

#[test]
fn parse_args_picks_query_and_file() {
    let args = vec![
        "prog".to_string(),
        "needle".to_string(),
        "file.txt".to_string(),
    ];
    assert_eq!(
        sch_rs::search::parse_args(&args),
        Ok(("needle", "file.txt"))
    );
    let short = vec!["prog".to_string()];
    assert_eq!(
        sch_rs::search::parse_args(&short),
        Err("Not enough arguments")
    );
}

#[test]
fn employee_directory_keeps_names_and_departments() {
    let mut m = employee_manage::new();
    m.add_employee(String::from("apple"), String::from("computer science"));
    m.add_employee(String::from("pear"), String::from("maths"));
    m.add_employee(String::from("apple"), String::from("physics"));
    let entries = m.entries();
    assert_eq!(entries.len(), 2);
    assert_eq!(entries[0], ("apple".to_string(), "physics".to_string()));
    assert_eq!(entries[1], ("pear".to_string(), "maths".to_string()));
}
