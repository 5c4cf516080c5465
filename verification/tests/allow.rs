use cylon::{Cylon, Rule};

#[test]
fn test_allow() {
    let rules = vec![
        Rule::Disallow("/"),
        Rule::Allow("/a"),
        Rule::Allow("/abc"),
        Rule::Allow("/b"),
    ];

    let machine = Cylon::compile(rules);
    assert_eq!(false, machine.allow("/"));
    assert_eq!(true, machine.allow("/a"));
    assert_eq!(true, machine.allow("/a/b"));
    assert_eq!(true, machine.allow("/a"));
    assert_eq!(true, machine.allow("/abc"));
    assert_eq!(true, machine.allow("/abc/def"));
    assert_eq!(true, machine.allow("/b"));
    assert_eq!(true, machine.allow("/b/c"));
}

#[test]
fn test_allow_match_any() {
    let rules = vec![
        Rule::Allow("/"),
        Rule::Disallow("/secret/*.txt"),
        Rule::Disallow("/private/*"),
    ];

    let machine = Cylon::compile(rules);
    assert_eq!(true, machine.allow("/"));
    assert_eq!(true, machine.allow("/abc"));
    assert_eq!(false, machine.allow("/secret/abc.txt"));
    assert_eq!(false, machine.allow("/secret/123.txt"));
    assert_eq!(true, machine.allow("/secret/abc.csv"));
    assert_eq!(true, machine.allow("/secret/123.csv"));
    assert_eq!(false, machine.allow("/private/abc.txt"));
    assert_eq!(false, machine.allow("/private/123.txt"));
    assert_eq!(false, machine.allow("/private/abc.csv"));
    assert_eq!(false, machine.allow("/private/123.csv"));
}

#[test]
fn test_allow_match_eow() {
    let rules = vec![
        Rule::Allow("/"),
        Rule::Disallow("/ignore$"),
        Rule::Disallow("/foo$bar"),
    ];

    let machine = Cylon::compile(rules);
    assert_eq!(true, machine.allow("/"));
    assert_eq!(true, machine.allow("/abc"));
    assert_eq!(false, machine.allow("/ignore"));
    assert_eq!(true, machine.allow("/ignoreabc"));
    assert_eq!(true, machine.allow("/ignore/abc"));
    // Nothing is promised of these two, since the rule is malformed; but
    // it is safer to accept them than to reject them.
    assert_eq!(true, machine.allow("/foo"));
    assert_eq!(true, machine.allow("/foo$bar"));
}

#[test]
fn test_allow_more_complicated() {
    let rules = vec![
        Rule::Allow("/"),
        Rule::Disallow("/a$"),
        Rule::Disallow("/abc"),
        Rule::Allow("/abc/*"),
        Rule::Disallow("/foo/bar"),
        Rule::Allow("/*/bar"),
        Rule::Disallow("/www/*/images"),
        Rule::Allow("/www/public/images"),
    ];

    let machine = Cylon::compile(rules);
    assert_eq!(true, machine.allow("/"));
    assert_eq!(true, machine.allow("/directory"));
    assert_eq!(false, machine.allow("/a"));
    assert_eq!(true, machine.allow("/ab"));
    assert_eq!(false, machine.allow("/abc"));
    assert_eq!(true, machine.allow("/abc/123"));
    assert_eq!(true, machine.allow("/foo"));
    assert_eq!(true, machine.allow("/foobar"));
    assert_eq!(false, machine.allow("/foo/bar"));
    assert_eq!(false, machine.allow("/foo/bar/baz"));
    assert_eq!(true, machine.allow("/baz/bar"));
    assert_eq!(false, machine.allow("/www/cat/images"));
    assert_eq!(true, machine.allow("/www/public/images"));
}

#[test]
fn test_matches() {
    // The cases of Google's description of how robots rules match paths.

    let machine = Cylon::compile(vec![Rule::Disallow("/"), Rule::Allow("/fish")]);
    assert_eq!(true, machine.allow("/fish"));
    assert_eq!(true, machine.allow("/fish.html"));
    assert_eq!(true, machine.allow("/fish/salmon.html"));
    assert_eq!(true, machine.allow("/fishheads.html"));
    assert_eq!(true, machine.allow("/fishheads/yummy.html"));
    assert_eq!(true, machine.allow("/fish.php?id=anything"));
    assert_eq!(false, machine.allow("/Fish.asp"));
    assert_eq!(false, machine.allow("/catfish"));
    assert_eq!(false, machine.allow("/?id=fish"));

    let machine = Cylon::compile(vec![Rule::Disallow("/"), Rule::Allow("/fish*")]);
    assert_eq!(true, machine.allow("/fish"));
    assert_eq!(true, machine.allow("/fish.html"));
    assert_eq!(true, machine.allow("/fish/salmon.html"));
    assert_eq!(true, machine.allow("/fishheads.html"));
    assert_eq!(true, machine.allow("/fishheads/yummy.html"));
    assert_eq!(true, machine.allow("/fish.php?id=anything"));
    assert_eq!(false, machine.allow("/Fish.asp"));
    assert_eq!(false, machine.allow("/catfish"));
    assert_eq!(false, machine.allow("/?id=fish"));

    let machine = Cylon::compile(vec![Rule::Disallow("/"), Rule::Allow("/fish/")]);
    assert_eq!(true, machine.allow("/fish/"));
    assert_eq!(true, machine.allow("/fish/?id=anything"));
    assert_eq!(true, machine.allow("/fish/salmon.htm"));
    assert_eq!(false, machine.allow("/fish"));
    assert_eq!(false, machine.allow("/fish.html"));
    assert_eq!(false, machine.allow("/Fish/Salmon.asp"));

    let machine = Cylon::compile(vec![Rule::Disallow("/"), Rule::Allow("/*.php")]);
    assert_eq!(true, machine.allow("/filename.php"));
    assert_eq!(true, machine.allow("/folder/filename.php"));
    assert_eq!(true, machine.allow("/folder/filename.php?parameters"));
    assert_eq!(true, machine.allow("/folder/any.php.file.html"));
    assert_eq!(true, machine.allow("/filename.php/"));
    assert_eq!(false, machine.allow("/"));
    assert_eq!(false, machine.allow("/windows.PHP"));

    let machine = Cylon::compile(vec![Rule::Disallow("/"), Rule::Allow("/*.php$")]);
    assert_eq!(true, machine.allow("/filename.php"));
    assert_eq!(true, machine.allow("/folder/filename.php"));
    assert_eq!(false, machine.allow("/filename.php?parameters"));
    assert_eq!(false, machine.allow("/filename.php/"));
    assert_eq!(false, machine.allow("/filename.php5"));
    assert_eq!(false, machine.allow("/windows.PHP"));

    let machine = Cylon::compile(vec![Rule::Disallow("/"), Rule::Allow("/fish*.php")]);
    assert_eq!(true, machine.allow("/fish.php"));
    assert_eq!(true, machine.allow("/fishheads/catfish.php?parameters"));
    assert_eq!(false, machine.allow("/Fish.PHP"));
}
