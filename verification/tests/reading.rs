use std::collections::HashMap;

use kv_serde::atom::{AtomKind, AtomParser};
use kv_serde::document::{Document, Token};
use kv_serde::error::{DeserializerError, Span};
use kv_serde::parser::{AnyKind, Parser};
use kv_serde::seq::SeqParser;

/// What a document reads as, when no type is asked for.
#[derive(Debug, PartialEq)]
enum Tree {
    Atom(String),
    Table(Vec<(String, Tree)>),
    List(Vec<Tree>),
}

fn text(doc: &Document, t: Token) -> String {
    doc.token_string(t)
}

fn read_any(p: &mut Parser) -> Result<Tree, DeserializerError> {
    match p.any_kind()? {
        AnyKind::Sequence => read_list(p),
        AnyKind::Mapping => read_map_tree(p),
        AnyKind::Atom => {
            let a = p.atom()?;
            Ok(Tree::Atom(text(p.doc, a.input)))
        }
    }
}

fn read_map_tree(p: &mut Parser) -> Result<Tree, DeserializerError> {
    let mut out = Vec::new();
    loop {
        if p.is_finished() {
            return Ok(Tree::Table(out));
        }
        p.deser_any_col = true;
        let k = p.value();
        p.deser_any_col = false;
        p.increment_prefix_level();
        let k = text(p.doc, k?);
        let v = read_any(p)?;
        p.decrement_prefix_level();
        out.push((k, v));
    }
}

fn read_list(p: &mut Parser) -> Result<Tree, DeserializerError> {
    let doc = p.doc;
    let mut seq = SeqParser::new(p);
    let mut out = Vec::new();
    loop {
        assert!(p.run_idents_fit());
        if !seq.scan(p)? {
            return Ok(Tree::List(out));
        }
        match seq.select(doc)? {
            None => return Ok(Tree::List(out)),
            Some(mut lookup) => {
                out.push(read_any(&mut lookup)?);
                lookup.decrement_prefix_level();
            }
        }
    }
}

fn read_doc(input: &str) -> Result<Tree, DeserializerError> {
    let doc = Document::parse(input);
    let mut p = Parser::new(&doc);
    read_any(&mut p)
}

fn atom(s: &str) -> Tree {
    Tree::Atom(s.to_string())
}

fn map(entries: Vec<(&str, Tree)>) -> Tree {
    Tree::Table(entries.into_iter().map(|(k, v)| (k.to_string(), v)).collect())
}

fn as_i64(t: &Tree) -> i64 {
    match t {
        Tree::Atom(s) => s.parse().unwrap(),
        other => panic!("not an atom: {:?}", other),
    }
}

/// Reads a map of integers at the top of the document.
fn read_int_map(input: &str) -> HashMap<String, i64> {
    let doc = Document::parse(input);
    let mut p = Parser::new(&doc);
    let mut out = HashMap::new();
    while !p.is_finished() {
        p.deser_any_col = true;
        let k = text(&doc, p.value().unwrap());
        p.deser_any_col = false;
        p.increment_prefix_level();
        let v = p.atom().unwrap().parse_signed(i64::MIN, i64::MAX).unwrap();
        p.decrement_prefix_level();
        out.insert(k, v);
    }
    out
}

/// Reads a map of maps of integers at the top of the document.
fn read_nested_int_map(input: &str) -> HashMap<String, HashMap<String, i64>> {
    let doc = Document::parse(input);
    let mut p = Parser::new(&doc);
    let mut out = HashMap::new();
    while !p.is_finished() {
        p.deser_any_col = true;
        let k = text(&doc, p.value().unwrap());
        p.deser_any_col = false;
        p.increment_prefix_level();
        let mut inner = HashMap::new();
        while !p.is_finished() {
            p.deser_any_col = true;
            let ik = text(&doc, p.value().unwrap());
            p.deser_any_col = false;
            p.increment_prefix_level();
            let v = p.atom().unwrap().parse_signed(i64::MIN, i64::MAX).unwrap();
            p.decrement_prefix_level();
            inner.insert(ik, v);
        }
        p.decrement_prefix_level();
        out.insert(k, inner);
    }
    out
}

/// Reads a sequence of `i64` at the top of the document.
fn read_i64_list(input: &str) -> Vec<i64> {
    let doc = Document::parse(input);
    let mut p = Parser::new(&doc);
    let mut seq = SeqParser::new(&p);
    let mut out = Vec::new();
    loop {
        assert!(p.run_idents_fit());
        if !seq.scan(&mut p).unwrap() {
            break;
        }
        match seq.select(&doc).unwrap() {
            None => break,
            Some(mut lookup) => {
                out.push(lookup.atom().unwrap().parse_signed(i64::MIN, i64::MAX).unwrap());
                lookup.decrement_prefix_level();
            }
        }
    }
    out
}

#[test]
fn read_map() {
    let input = "foo = 1
bar = 2
baz = 3
quux = 4
";
    let mut expected = HashMap::new();
    expected.insert("foo".to_string(), 1);
    expected.insert("bar".to_string(), 2);
    expected.insert("baz".to_string(), 3);
    expected.insert("quux".to_string(), 4);
    assert_eq!(read_int_map(input), expected);
}

#[test]
fn read_nested_map() {
    let input = "foo.bar = 1
foo.baz = 2
bar.baz = 3
bar.quux = 4";
    let expected = map(vec![
        ("foo", map(vec![("bar", atom("1")), ("baz", atom("2"))])),
        ("bar", map(vec![("baz", atom("3")), ("quux", atom("4"))])),
    ]);
    assert_eq!(read_doc(input), Ok(expected));

    let mut expected = HashMap::new();
    let mut foo = HashMap::new();
    foo.insert("bar".to_string(), 1);
    foo.insert("baz".to_string(), 2);
    let mut bar = HashMap::new();
    bar.insert("baz".to_string(), 3);
    bar.insert("quux".to_string(), 4);
    expected.insert("foo".to_string(), foo);
    expected.insert("bar".to_string(), bar);
    assert_eq!(read_nested_int_map(input), expected);
}

#[test]
fn read_seq() {
    let input = "0=0
1=1
10=10
11=11
2=2
3=3
4=4
5=5
6=6
7=7
8=8
9=9
length=12";
    assert_eq!(read_i64_list(input), (0..12).collect::<Vec<_>>());
}

#[test]
fn read_bad_seq() {
    let input = "0=0
1=1
10=10
11=11
2=2
3=3
4=4
5=5
6=6
7=7
8=8
9=9
length=10";
    assert_eq!(read_i64_list(input), (0..10).collect::<Vec<_>>());
}

#[test]
fn read_unsized_seq() {
    let input = "0=0
1=1
10=10
11=11
2=2
3=3
4=4
5=5
6=6
7=7
8=8
9=9";
    assert_eq!(read_i64_list(input), (0..12).collect::<Vec<_>>());
}

#[test]
fn sequence_with_gaps_skips_missing_indices() {
    let input = "7=c\n2=a\n5=b\n";
    let t = read_doc(input).unwrap();
    assert_eq!(t, Tree::List(vec![atom("a"), atom("b"), atom("c")]));
}

#[test]
fn sequence_marker_num_is_case_insensitive() {
    assert_eq!(read_i64_list("0=5\n1=6\n2=7\nNUM=2"), vec![5, 6]);
}

#[test]
fn sequence_of_structures_in_a_struct() {
    let input = "
# a comment
items.0.name = a
items.0.id = 1
items.1.name = b
items.1.id = 2
items.length = 2
title = t
";
    let expected = map(vec![
        (
            "items",
            Tree::List(vec![
                map(vec![("name", atom("a")), ("id", atom("1"))]),
                map(vec![("name", atom("b")), ("id", atom("2"))]),
            ]),
        ),
        ("title", atom("t")),
    ]);
    assert_eq!(read_doc(input), Ok(expected));
}

#[test]
fn sequence_rejects_a_foreign_line() {
    let input = "0=1\nname=x\n";
    let doc = Document::parse(input);
    let mut p = Parser::new(&doc);
    let mut seq = SeqParser::new(&p);
    let err = seq.scan(&mut p).unwrap_err();
    // "name" is bytes 4..8 of the input
    assert_eq!(err, DeserializerError::ExpectedSequenece { unexpected: Span { start: 4, end: 8 } });
}

#[test]
fn empty_sequence_has_no_elements() {
    let doc = Document::parse("# only a comment\n\n");
    let mut p = Parser::new(&doc);
    let mut seq = SeqParser::new(&p);
    assert_eq!(seq.scan(&mut p), Ok(false));
}

#[test]
fn index_too_large_is_reported_before_reading() {
    let doc = Document::parse("9223372036854775807=1\n");
    let p = Parser::new(&doc);
    assert!(!p.run_idents_fit());
    let doc = Document::parse("9223372036854775806=1\n");
    let p = Parser::new(&doc);
    assert!(p.run_idents_fit());
}

#[test]
fn index_after_a_foreign_line_is_never_read() {
    let doc = Document::parse("0=1\nfoo=2\n99999999999999999999=3\n");
    let mut p = Parser::new(&doc);
    assert!(p.run_idents_fit());
    let mut seq = SeqParser::new(&p);
    let err = seq.scan(&mut p).unwrap_err();
    // "foo" is bytes 4..7 of the input
    assert_eq!(err, DeserializerError::ExpectedSequenece { unexpected: Span { start: 4, end: 7 } });
}

#[test]
fn blank_and_comment_lines_are_skipped() {
    let doc = Document::parse("\n# c\n   \t\na=1\n#b=2\r\nc = 3\r\n");
    assert_eq!(doc.entries.len(), 2);
    assert_eq!(text(&doc, doc.entries[0].line), "a=1");
    assert_eq!(text(&doc, doc.entries[1].line), "c = 3");
    let p = doc.entries[1].pair.as_ref().unwrap();
    assert_eq!(text(&doc, p.keys[0]), "c");
    assert_eq!(text(&doc, p.value), "3");
}

#[test]
fn keys_split_on_dots_and_trim() {
    let doc = Document::parse(" a . b.c = x = y ");
    let p = doc.entries[0].pair.as_ref().unwrap();
    let keys: Vec<String> = p.keys.iter().map(|t| text(&doc, *t)).collect();
    assert_eq!(keys, vec!["a", "b", "c"]);
    assert_eq!(text(&doc, p.value), "x = y");
}

#[test]
fn line_without_equals_has_no_pair() {
    let doc = Document::parse("just words\n");
    assert_eq!(doc.entries.len(), 1);
    assert!(doc.entries[0].pair.is_none());
    let p = Parser::new(&doc);
    assert_eq!(p.value(), Err(DeserializerError::ExpectedValueNode));
    assert!(p.key_value().is_none());
    assert_eq!(p.any_kind(), Err(DeserializerError::ExpectedKeyValuePair));
    assert!(matches!(p.peek_key_value(), Err(DeserializerError::ExpectedKeyValuePair)));
}

#[test]
fn byte_spans_slice_the_input() {
    let input = "ключ = значение\nk=v";
    let doc = Document::parse(input);
    let p = doc.entries[0].pair.as_ref().unwrap();
    let v = p.value;
    assert_eq!(&input[v.byte_start..v.byte_end], "значение");
    let k = p.keys[0];
    assert_eq!(&input[k.byte_start..k.byte_end], "ключ");
    let p2 = doc.entries[1].pair.as_ref().unwrap();
    assert_eq!(&input[p2.value.byte_start..p2.value.byte_end], "v");
    assert_eq!(p2.value.byte_start, "ключ = значение\nk=".len());
}

#[test]
fn value_names_the_key_or_the_value() {
    let doc = Document::parse("a.b = 1");
    let mut p = Parser::new(&doc);
    assert_eq!(text(&doc, p.value().unwrap()), "a");
    p.increment_prefix_level();
    assert_eq!(text(&doc, p.value().unwrap()), "b");
    p.increment_prefix_level();
    assert_eq!(text(&doc, p.value().unwrap()), "1");
    let kv = p.key_value().unwrap();
    assert!(kv.path.is_empty());
}

#[test]
fn any_kind_distinguishes_lists_maps_and_atoms() {
    let doc = Document::parse("0.x = 1\n");
    let mut p = Parser::new(&doc);
    assert_eq!(p.any_kind(), Ok(AnyKind::Sequence));
    p.increment_prefix_level();
    assert_eq!(p.any_kind(), Ok(AnyKind::Mapping));
    p.deser_any_col = true;
    assert_eq!(p.any_kind(), Ok(AnyKind::Atom));
    p.deser_any_col = false;
    p.increment_prefix_level();
    assert_eq!(p.any_kind(), Ok(AnyKind::Atom));
}

#[test]
fn leaving_a_scope_skips_its_lines() {
    let doc = Document::parse("a.x=1\na.y=2\nb=3\n");
    let mut p = Parser::new(&doc);
    p.increment_prefix_level();
    p.decrement_prefix_level();
    assert_eq!(p.pos, 2);
    p.increment_prefix_level();
    p.decrement_prefix_level();
    assert_eq!(p.pos, 3);
    assert!(p.is_finished());
}

/// The value of the first line of a document with one-component keys.
fn atom_of(doc: &Document) -> AtomParser<'_> {
    let mut p = Parser::new(doc);
    p.increment_prefix_level();
    p.atom().unwrap()
}

#[test]
fn atoms_read_as_primitives() {
    let doc = Document::parse("x = true");
    assert_eq!(atom_of(&doc).parse_bool(), Ok(true));
    let doc = Document::parse("x = false");
    assert_eq!(atom_of(&doc).parse_bool(), Ok(false));
    let doc = Document::parse("x = yes");
    assert_eq!(
        atom_of(&doc).parse_bool(),
        Err(DeserializerError::InvalidAtom { span: Span { start: 4, end: 7 } })
    );
    let doc = Document::parse("x = -128");
    assert_eq!(atom_of(&doc).parse_signed(-128, 127), Ok(-128));
    let doc = Document::parse("x = 128");
    assert!(atom_of(&doc).parse_signed(-128, 127).is_err());
    assert_eq!(atom_of(&doc).parse_unsigned(255), Ok(128));
    let doc = Document::parse("x = +42");
    assert_eq!(atom_of(&doc).parse_signed(i64::MIN, i64::MAX), Ok(42));
    let doc = Document::parse("x = -0");
    assert!(atom_of(&doc).parse_unsigned(10).is_err());
    let doc = Document::parse("x = 18446744073709551615");
    assert_eq!(atom_of(&doc).parse_unsigned(u64::MAX), Ok(u64::MAX));
    assert!(atom_of(&doc).parse_signed(i64::MIN, i64::MAX).is_err());
    assert_eq!(atom_of(&doc).atom_kind(), AtomKind::Unsigned(u64::MAX));
    let doc = Document::parse("x = 18446744073709551616");
    assert!(atom_of(&doc).parse_unsigned(u64::MAX).is_err());
    assert_eq!(atom_of(&doc).atom_kind(), AtomKind::Text);
    let doc = Document::parse("x = -9223372036854775808");
    assert_eq!(atom_of(&doc).parse_signed(i64::MIN, i64::MAX), Ok(i64::MIN));
    let doc = Document::parse("x = é");
    assert_eq!(atom_of(&doc).parse_char(), Ok('é'));
    let doc = Document::parse("x = ab");
    assert!(atom_of(&doc).parse_char().is_err());
    let doc = Document::parse("x = 1.5");
    assert_eq!(atom_of(&doc).atom_kind(), AtomKind::Text);
    let doc = Document::parse("x = -3");
    assert_eq!(atom_of(&doc).atom_kind(), AtomKind::Signed(-3));
    let doc = Document::parse("x = true");
    assert_eq!(atom_of(&doc).atom_kind(), AtomKind::Bool(true));
}

#[test]
fn tuple_atoms_split_at_commas() {
    let doc = Document::parse("2.Bar=(123, 3.1415)");
    let mut p = Parser::new(&doc);
    p.increment_prefix_level();
    p.increment_prefix_level();
    let a = p.atom().unwrap();
    let parts: Vec<String> = a.tuple_parts().unwrap().iter().map(|t| text(&doc, *t)).collect();
    assert_eq!(parts, vec!["123", "3.1415"]);
    let doc = Document::parse("x=( )");
    assert_eq!(atom_of(&doc).tuple_parts().unwrap().len(), 0);
    let doc = Document::parse("x=123");
    assert!(atom_of(&doc).tuple_parts().is_err());
}

#[test]
fn enum_lines_read_as_trees() {
    let input = "
0=None
1.Foo=123
2.Bar=(123, 3.1415)
3.Baz=Hello World!
4.Quux.foo=123
4.Quux.bar=3.1415
5.Foobar.foo=123
5.Foobar.bar=3.1415
length=6
";
    let expected = Tree::List(vec![
        atom("None"),
        map(vec![("Foo", atom("123"))]),
        map(vec![("Bar", atom("(123, 3.1415)"))]),
        map(vec![("Baz", atom("Hello World!"))]),
        map(vec![("Quux", map(vec![("foo", atom("123")), ("bar", atom("3.1415"))]))]),
        map(vec![("Foobar", map(vec![("foo", atom("123")), ("bar", atom("3.1415"))]))]),
    ]);
    assert_eq!(read_doc(input), Ok(expected));
}

#[test]
fn list_values_parse_as_integers() {
    let t = read_doc("1=20\n0=10\n").unwrap();
    match t {
        Tree::List(items) => assert_eq!(items.iter().map(as_i64).collect::<Vec<_>>(), vec![10, 20]),
        other => panic!("{:?}", other),
    }
}

#[test]
fn length_above_every_index_bounds_nothing() {
    assert_eq!(read_i64_list("1=20\n0=10\nlength=7\n"), read_i64_list("1=20\n0=10\n"));
    assert_eq!(read_i64_list("1=20\n0=10\nlength=7\n"), vec![10, 20]);
    assert_eq!(read_i64_list("1=20\n0=10\nlength=1\n"), vec![10]);
}

#[test]
fn line_order_does_not_change_the_elements() {
    assert_eq!(read_i64_list("2=3\n0=1\n1=2\n"), read_i64_list("0=1\n1=2\n2=3\n"));
    assert_eq!(read_i64_list("2=3\n0=1\n1=2\n"), vec![1, 2, 3]);
}

#[test]
fn one_element_per_distinct_index() {
    let expected = Tree::List(vec![map(vec![("a", atom("1")), ("b", atom("2"))]), atom("3")]);
    assert_eq!(read_doc("0.a=1\n0.b=2\n1=3\n"), Ok(expected));
    assert_eq!(read_i64_list("5=1\n3=2\n"), vec![2, 1]);
}

#[test]
fn comment_lines_move_entries_and_error_spans() {
    let plain = Document::parse("0=1\nfoo=2\n");
    let commented = Document::parse("# é\n\n0=1\nfoo=2\n");
    assert_eq!(plain.entries.len(), commented.entries.len());
    // "# é\n\n" is 5 characters and 6 bytes
    assert_eq!(commented.entries[0].line.start, plain.entries[0].line.start + 5);
    assert_eq!(commented.entries[1].line.byte_start, plain.entries[1].line.byte_start + 6);
    let mut p = Parser::new(&plain);
    let mut seq = SeqParser::new(&p);
    assert_eq!(
        seq.scan(&mut p).unwrap_err(),
        DeserializerError::ExpectedSequenece { unexpected: Span { start: 4, end: 7 } }
    );
    let mut p = Parser::new(&commented);
    let mut seq = SeqParser::new(&p);
    assert_eq!(
        seq.scan(&mut p).unwrap_err(),
        DeserializerError::ExpectedSequenece { unexpected: Span { start: 10, end: 13 } }
    );
}

#[test]
fn spans_count_leading_lines_as_a_reading_does() {
    // a `\r\n` ending of a leading comment counts one byte
    let doc = Document::parse("#c\r\n0=1\nfoo=2\n");
    assert_eq!(doc.span_shift, 1);
    let mut p = Parser::new(&doc);
    let mut seq = SeqParser::new(&p);
    assert_eq!(
        seq.scan(&mut p).unwrap_err(),
        DeserializerError::ExpectedSequenece { unexpected: Span { start: 7, end: 10 } }
    );
    // a line of white space ends the leading lines
    let doc = Document::parse("#c\n  \n0=1\nfoo=2\n");
    assert_eq!(doc.span_shift, 3);
    let mut p = Parser::new(&doc);
    let mut seq = SeqParser::new(&p);
    assert_eq!(
        seq.scan(&mut p).unwrap_err(),
        DeserializerError::ExpectedSequenece { unexpected: Span { start: 7, end: 10 } }
    );
    // leading lines that are empty or comments are counted in full
    let doc = Document::parse("#c\n\n0=1\nfoo=2\n");
    assert_eq!(doc.span_shift, 0);
    // so is a value that does not parse
    let doc = Document::parse("  \nx = abc");
    let mut p = Parser::new(&doc);
    p.increment_prefix_level();
    let a = p.atom().unwrap();
    assert_eq!(a.parse_bool(), Err(DeserializerError::InvalidAtom { span: Span { start: 4, end: 7 } }));
}

#[test]
fn comment_lines_anywhere_leave_the_reading() {
    let plain = Document::parse("a=1\nb.c=2\n");
    let commented = Document::parse("a=1\n# note\n\nb.c=2\n");
    assert_eq!(plain.entries.len(), commented.entries.len());
    for (e1, e2) in plain.entries.iter().zip(commented.entries.iter()) {
        assert_eq!(text(&plain, e1.line), text(&commented, e2.line));
        let (p1, p2) = (e1.pair.as_ref().unwrap(), e2.pair.as_ref().unwrap());
        assert_eq!(p1.keys.len(), p2.keys.len());
        assert_eq!(text(&plain, p1.value), text(&commented, p2.value));
    }
    // the first entry keeps its place; the second moves by "# note\n\n"
    assert_eq!(commented.entries[0].line, plain.entries[0].line);
    assert_eq!(commented.entries[1].line.start, plain.entries[1].line.start + 8);
    assert_eq!(commented.entries[1].line.byte_start, plain.entries[1].line.byte_start + 8);
    assert_eq!(read_doc("a=1\nb.c=2\n"), read_doc("a=1\n# note\n\nb.c=2\n"));
}
