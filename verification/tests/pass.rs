use module_manager_rs::document;
use module_manager_rs::pass::{order_of, Pass, PassIdentifier};
use std::cmp::Ordering;

#[test]
fn pass_ordering() {
    assert_eq!(Pass::For("foo".into()), Pass::For("foo".into()));
    assert!(Pass::Default < Pass::First);
    assert!(Pass::First < Pass::Before("foo".into()));
    assert!(Pass::Before("foo".into()) < Pass::For("foo".into()));
    assert!(Pass::For("foo".into()) < Pass::After("foo".into()));
    assert!(Pass::After("foo".into()) < Pass::Before("qux".into()));
    assert!(Pass::Last("foo".into()) < Pass::Final);
}

#[test]
fn pass_ordering_is_identifier_major_for_anchored_passes() {
    assert!(Pass::After("a".into()) < Pass::Before("b".into()));
    assert!(Pass::For("a".into()) < Pass::Before("b".into()));
    assert!(Pass::Before("b".into()) > Pass::After("a".into()));
    assert!(!(Pass::Before("b".into()) < Pass::After("a".into())));
}

#[test]
fn pass_ordering_of_last_is_by_identifier() {
    assert!(Pass::Last("a".into()) < Pass::Last("b".into()));
    assert!(!(Pass::Last("b".into()) < Pass::Last("a".into())));
    assert!(Pass::After("zzz".into()) < Pass::Last("a".into()));
    assert!(Pass::Last("zzz".into()) < Pass::Final);
    assert!(Pass::Default < Pass::Last("a".into()));
}

#[test]
fn pass_ordering_is_strict() {
    let passes = vec![
        Pass::Default,
        Pass::First,
        Pass::Before("a".into()),
        Pass::For("a".into()),
        Pass::After("a".into()),
        Pass::Before("b".into()),
        Pass::Last("a".into()),
        Pass::Last("b".into()),
        Pass::Final,
    ];
    for i in 0..passes.len() {
        for j in 0..passes.len() {
            assert_eq!(passes[i] < passes[j], i < j);
            assert_eq!(passes[i] == passes[j], i == j);
            assert_eq!(passes[i].runs_before(&passes[j]), i < j);
        }
    }
}

#[test]
fn pass_cmp_gives_the_three_answers() {
    assert_eq!(Pass::Default.cmp(&Pass::First), Ordering::Less);
    assert_eq!(Pass::Final.cmp(&Pass::First), Ordering::Greater);
    assert_eq!(Pass::For("x".into()).cmp(&Pass::For("x".into())), Ordering::Equal);
    assert_eq!(Pass::For("x".into()).partial_cmp(&Pass::After("x".into())), Some(Ordering::Less));
}

#[test]
fn numerical_ordering_ranks_the_categories() {
    assert_eq!(Pass::Default.numerical_ordering(), 0);
    assert_eq!(Pass::First.numerical_ordering(), 1);
    assert_eq!(Pass::Before("a".into()).numerical_ordering(), 2);
    assert_eq!(Pass::For("a".into()).numerical_ordering(), 3);
    assert_eq!(Pass::After("a".into()).numerical_ordering(), 4);
    assert_eq!(Pass::Last("a".into()).numerical_ordering(), 5);
    assert_eq!(Pass::Final.numerical_ordering(), 6);
}

#[test]
fn pass_is_rendered_as_written() {
    assert_eq!(Pass::Default.render(), ":<DEFAULT>");
    assert_eq!(Pass::First.render(), ":FIRST");
    assert_eq!(Pass::Before("foo".into()).render(), ":BEFORE[foo]");
    assert_eq!(Pass::For("foo".into()).render(), ":FOR[foo]");
    assert_eq!(Pass::After("foo".into()).render(), ":AFTER[foo]");
    assert_eq!(Pass::Last("foo".into()).render(), ":LAST[foo]");
    assert_eq!(Pass::Final.render(), ":FINAL");
}

#[test]
fn pass_identifier_from_text() {
    let a: PassIdentifier = "foo".into();
    let b: PassIdentifier = String::from("foo").into();
    assert_eq!(a, b);
    assert_eq!(a.render(), "foo");
    assert!(PassIdentifier::from("abc") < PassIdentifier::from("abd"));
    assert!(PassIdentifier::from("ab") < PassIdentifier::from("abc"));
}

#[test]
fn pass_from_parsed_pass() {
    assert_eq!(Pass::from(document::Pass::Default), Pass::Default);
    assert_eq!(Pass::from(document::Pass::First), Pass::First);
    assert_eq!(Pass::from(document::Pass::Before("m".to_string())), Pass::Before("m".into()));
    assert_eq!(Pass::from(document::Pass::For("m".to_string())), Pass::For("m".into()));
    assert_eq!(Pass::from(document::Pass::After("m".to_string())), Pass::After("m".into()));
    assert_eq!(Pass::from(document::Pass::Last("m".to_string())), Pass::Last("m".into()));
    assert_eq!(Pass::from(document::Pass::Final), Pass::Final);
}

#[test]
fn order_of_texts_is_bytewise() {
    assert_eq!(order_of("", ""), Ordering::Equal);
    assert_eq!(order_of("", "a"), Ordering::Less);
    assert_eq!(order_of("a", ""), Ordering::Greater);
    assert_eq!(order_of("Z", "a"), Ordering::Less);
    assert_eq!(order_of("foo", "qux"), Ordering::Less);
    assert_eq!(order_of("é", "z"), Ordering::Greater);
    assert_eq!(order_of("abc", "abc"), Ordering::Equal);
}
