use simple_combinators::combinator::{attempt, ignore, many, many1, optional, preview, satisfy};
use simple_combinators::cursor::Cursor;
use simple_combinators::parser::{
    alpha, any, char, digit, number_i64, number_usize, one_of, quoted_string, space, spaces,
    string, word, DigitVal, NotChar, ToAsciiUppercase,
};
use simple_combinators::parser::CharRange;
use simple_combinators::{Parser, ParserExt};

fn cur(s: &str) -> Cursor {
    Cursor::new(s.chars().collect())
}

fn chars(s: &str) -> Vec<char> {
    s.chars().collect()
}

fn rest(c: &Cursor) -> String {
    c.input[c.pos..].iter().collect()
}

#[test]
fn test_satisfy() {
    assert!(satisfy(NotChar { excluded: 'A' }).parse(&mut cur("Aa")).is_err());
    assert_eq!(satisfy(NotChar { excluded: 'A' }).parse(&mut cur("a")).unwrap(), 'a');
    assert!(satisfy(NotChar { excluded: 'A' }).parse(&mut cur("")).is_err());
}

#[test]
fn test_char() {
    assert_eq!(any().parse(&mut cur("你好")).unwrap(), '你');
    assert!(any().parse(&mut cur("")).is_err());

    assert_eq!(char('H').parse(&mut cur("Hello")).unwrap(), 'H');
    assert!(char('H').parse(&mut cur("hello")).is_err());

    assert_eq!(digit().parse(&mut cur("123")).unwrap(), '1');
    assert!(digit().parse(&mut cur("FF00FF")).is_err());

    assert_eq!(alpha().parse(&mut cur("Angel")).unwrap(), 'A');
    assert_eq!(alpha().parse(&mut cur("angel")).unwrap(), 'a');
    assert!(alpha().parse(&mut cur("非拉丁字母")).is_err());

    assert_eq!(many1(space()).parse(&mut cur(" \r\n\t")).unwrap(), chars(" \r\n\t"));

    assert_eq!(spaces().parse(&mut cur("  \n  \t")).unwrap(), ());

    assert_eq!(one_of(chars("abc")).parse(&mut cur("cow")).unwrap(), 'c');
    let s = String::from("ocean");
    assert_eq!(one_of(chars("aeiou")).parse(&mut cur(s.as_str())).unwrap(), 'o');
}

#[test]
fn test_string() {
    assert_eq!(string(chars("love")).parse(&mut cur("love")).unwrap(), chars("love"));
    let mut buf = cur("love you");
    assert_eq!(string(chars("love")).parse(&mut buf).unwrap(), chars("love"));
    assert_eq!(rest(&buf), " you");

    assert_eq!(word().parse(&mut cur("you are fine")).unwrap(), chars("you"));
    assert_eq!(word().parse(&mut cur("many1 is a function")).unwrap(), chars("many"));

    assert_eq!(quoted_string().parse(&mut cur("\"I love you\"")).unwrap(), chars("I love you"));
    assert_eq!(
        quoted_string().parse(&mut cur("\"You say \\\"I love you\\\"?\"")).unwrap(),
        chars("You say \"I love you\"?")
    );
    assert!(quoted_string().parse(&mut cur("'words in single quotes won't be parsed'")).is_err());
}

#[test]
fn test_combinators() {
    assert_eq!(char('#').with(char('a')).parse(&mut cur("#a")).unwrap(), 'a');
    assert!(char('#').with(char('a')).parse(&mut cur("a#")).is_err());
    assert!(char('#').with(char('a')).parse(&mut cur("#")).is_err());

    assert_eq!(alpha().skip(char('!')).parse(&mut cur("a!")).unwrap(), 'a');
    assert!(alpha().skip(char('!')).parse(&mut cur("1!")).is_err());
    assert!(alpha().skip(char('!')).parse(&mut cur("a?")).is_err());

    assert_eq!(digit().and(digit()).parse(&mut cur("12")).unwrap(), ('1', '2'));

    assert_eq!(
        many(digit()).between(char('{'), char('}')).parse(&mut cur("{323}")).unwrap(),
        chars("323")
    );
}

#[test]
fn test_interactive() {
    assert_eq!(char('(').with(digit()).skip(char(')')).parse(&mut cur("(1)")).unwrap(), '1');
    assert_eq!(
        char('(')
            .with(digit())
            .skip(char(','))
            .and(alpha())
            .skip(char(')'))
            .parse(&mut cur("(1,a)"))
            .unwrap(),
        ('1', 'a')
    );
}

#[test]
fn test_map() {
    assert_eq!(
        satisfy(CharRange { lo: 'a', hi: 'z' })
            .map(ToAsciiUppercase)
            .parse(&mut cur("a"))
            .unwrap(),
        'A'
    );
    assert_eq!(digit().flat_map(DigitVal).parse(&mut cur("1")).unwrap(), 1);
}

#[test]
fn test_iter() {
    let mut v = Vec::new();
    let mut buf = cur("test");
    let it = any().iter();
    while let Some(i) = it.next(&mut buf) {
        v.push(i);
    }
    assert_eq!(v, vec!['t', 'e', 's', 't']);
    let mut ans = 0;
    let mut buf = cur("1234");
    let it = digit().flat_map(DigitVal).iter();
    while let Some(i) = it.next(&mut buf) {
        ans = ans * 10 + i;
    }
    assert_eq!(ans, 1234);
}

#[test]
fn test_repeat() {
    assert_eq!(char('a').repeat(4).parse(&mut cur("aaaaa")).unwrap(), chars("aaaa"));
    assert_eq!(char('a').repeat(5).parse(&mut cur("aaaaa")).unwrap(), chars("aaaaa"));
    assert!(char('a').repeat(6).parse(&mut cur("aaaaa")).is_err());
    assert_eq!(many(char('a')).parse(&mut cur("aaaaa")).unwrap(), chars("aaaaa"));
    assert_eq!(
        many(digit())
            .flat_map(simple_combinators::numeric::PlainI64)
            .parse(&mut cur("1234"))
            .unwrap(),
        1234
    );
    assert_eq!(many(any()).parse(&mut cur("")).unwrap(), chars(""));
    assert!(many1(any()).parse(&mut cur("")).is_err());

    assert_eq!(alpha().sep_by(char(',')).parse(&mut cur("a,a,a")).unwrap(), chars("aaa"));
    assert_eq!(alpha().sep_by(char(',')).parse(&mut cur("a,a,a,")).unwrap(), chars("aaa"));
    assert!(alpha().sep_by(char(',')).parse(&mut cur(",a,a,a")).is_err());
    assert_eq!(alpha().sep_by(char(',')).parse(&mut cur("a;a;a")).unwrap(), chars("a"));
}

#[test]
fn test_attempt() {
    let mut buf = cur("ab");
    let res = attempt(char('A')).parse(&mut buf);
    assert!(res.is_err());
    assert_eq!(rest(&buf), "ab");
    let res = attempt(char('a')).parse(&mut buf);
    assert_eq!(res.unwrap(), 'a');
    assert_eq!(rest(&buf), "b");

    let mut buf = cur("ab");
    let res = optional(char('A')).parse(&mut buf);
    assert_eq!(res.unwrap(), None);
    assert_eq!(rest(&buf), "ab");
    let res = optional(char('a')).parse(&mut buf);
    assert_eq!(res.unwrap(), Some('a'));
    assert_eq!(rest(&buf), "b");

    let res = preview(char('B')).parse(&mut buf);
    assert!(res.is_err());
    assert_eq!(rest(&buf), "b");
    let res = preview(char('b')).parse(&mut buf);
    assert_eq!(res.unwrap(), 'b');
    assert_eq!(rest(&buf), "b");

    let res = ignore(char('B')).parse(&mut buf);
    assert!(res.is_err());
    assert_eq!(rest(&buf), "b");
    let res = ignore(char('b')).parse(&mut buf);
    assert_eq!(res.unwrap(), ());
    assert_eq!(rest(&buf), "");
}

#[test]
fn test_or() {
    assert_eq!(char('a').or(char('c')).parse(&mut cur("candy")).unwrap(), 'c');
    assert_eq!(one_of(chars("abc")).or(char('d')).parse(&mut cur("candy")).unwrap(), 'c');
    assert_eq!(
        number_usize()
            .skip(char('!'))
            .or(number_usize().skip(char('?')))
            .parse(&mut cur("123?"))
            .unwrap(),
        123
    );
}

#[test]
fn test_number() {
    assert_eq!(number_i64().parse(&mut cur("1.432e10")).unwrap(), 1.432e10 as i64);
    assert_eq!(number_i64().parse(&mut cur("1.432e2")).unwrap(), 1);
    assert_eq!(number_i64().parse(&mut cur("-1242.31")).unwrap(), -1242);

    assert_eq!(number_usize().parse(&mut cur("1.432e10")).unwrap(), 1.432e10 as usize);
    assert_eq!(number_usize().parse(&mut cur("1.432e2")).unwrap(), 1);
    assert!(number_usize().parse(&mut cur("-1242.31")).is_err());
}
