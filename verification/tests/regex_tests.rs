use grep_rustico::regex::Regex;

#[test]
fn test_match_expression_basic() {
    assert_eq!(Regex::new("a").unwrap().match_expression("casa"), Ok(true));
    assert_eq!(Regex::new("aa").unwrap().match_expression("haaha"), Ok(true));
    assert_eq!(Regex::new("a").unwrap().match_expression("hola"), Ok(true));
}

#[test]
fn test_match_expression_question_mark() {
    assert_eq!(Regex::new("a?b").unwrap().match_expression("b"), Ok(true));
    assert_eq!(Regex::new("a?b").unwrap().match_expression("ab"), Ok(true));
    assert_eq!(Regex::new("a?b").unwrap().match_expression("aab"), Ok(true));
    assert_eq!(Regex::new("a?b").unwrap().match_expression("aa"), Ok(false));
}

#[test]
fn test_match_expression_wildcard() {
    assert_eq!(Regex::new("a.b").unwrap().match_expression("aab"), Ok(true));
    assert_eq!(Regex::new("a.b").unwrap().match_expression("axb"), Ok(true));
    assert_eq!(Regex::new("a.b").unwrap().match_expression("abc"), Ok(false));
}

#[test]
fn test_match_expression_wildcard_any() {
    assert_eq!(Regex::new("a.*").unwrap().match_expression("abc"), Ok(true));
    assert_eq!(Regex::new("a.*").unwrap().match_expression("a"), Ok(true));
    assert_eq!(Regex::new("ab.*c").unwrap().match_expression("abzzzc"), Ok(true));
    assert_eq!(Regex::new("ab.*cd").unwrap().match_expression("abzzzcd"), Ok(true));
}

#[test]
fn test_match_expression_literals() {
    assert_eq!(Regex::new("abc").unwrap().match_expression("abc"), Ok(true));
    assert_eq!(Regex::new("abc").unwrap().match_expression("ab"), Ok(false));
    assert_eq!(Regex::new("abc").unwrap().match_expression("abcd"), Ok(true));
    assert_eq!(Regex::new("bc").unwrap().match_expression("abcd"), Ok(true));
}

#[test]
fn test_match_expression_star() {
    assert_eq!(Regex::new("a*b").unwrap().match_expression("b"), Ok(true));
    assert_eq!(Regex::new("a*b").unwrap().match_expression("ab"), Ok(true));
    assert_eq!(Regex::new("a*b").unwrap().match_expression("aaab"), Ok(true));
    assert_eq!(Regex::new("a*b").unwrap().match_expression("aa"), Ok(false));
}

#[test]
fn test_match_expression_plus() {
    assert_eq!(Regex::new("a+b").unwrap().match_expression("ab"), Ok(true));
    assert_eq!(Regex::new("a+b").unwrap().match_expression("aab"), Ok(true));
    assert_eq!(Regex::new("a+b").unwrap().match_expression("aa"), Ok(false));
    assert_eq!(Regex::new("go+gle").unwrap().match_expression("gogle"), Ok(true));
    assert_eq!(Regex::new("go+gle").unwrap().match_expression("gooogle"), Ok(true));
    assert_eq!(Regex::new("go+gle").unwrap().match_expression("ggle"), Ok(false));
}

#[test]
fn test_match_expression_caret() {
    assert_eq!(Regex::new("^a").unwrap().match_expression("a"), Ok(true));
    assert_eq!(Regex::new("^a").unwrap().match_expression("ba"), Ok(false));
    assert_eq!(Regex::new("^a").unwrap().match_expression("ab"), Ok(true));
    assert_eq!(Regex::new("^ab").unwrap().match_expression("ba"), Ok(false));
}

#[test]
fn test_match_expression_end_of_line() {
    assert_eq!(Regex::new("a$").unwrap().match_expression("a"), Ok(true));
    assert_eq!(Regex::new("a$").unwrap().match_expression("ba"), Ok(true));
    assert_eq!(Regex::new("a$").unwrap().match_expression("wwwa"), Ok(true));
    assert_eq!(Regex::new("ab$").unwrap().match_expression("ba"), Ok(false));
    assert_eq!(Regex::new("ab$").unwrap().match_expression("ab"), Ok(true));
    assert_eq!(Regex::new("a$").unwrap().match_expression("abb"), Ok(false));
    assert_eq!(Regex::new("og$").unwrap().match_expression("dog"), Ok(true));
}

#[test]
fn test_match_expression_pipe() {
    assert_eq!(Regex::new("a|b").unwrap().match_expression("a"), Ok(true));
    assert_eq!(Regex::new("a|b").unwrap().match_expression("b"), Ok(true));
    assert_eq!(Regex::new("a|b").unwrap().match_expression("c"), Ok(false));
    assert_eq!(Regex::new("a|b").unwrap().match_expression("ab"), Ok(true));
    assert_eq!(Regex::new("a|b").unwrap().match_expression("ba"), Ok(true));
    assert_eq!(Regex::new("cat|dog").unwrap().match_expression("dog"), Ok(true));
    assert_eq!(
        Regex::new("^start|end$").unwrap().match_expression("end with end"),
        Ok(true)
    );
    assert_eq!(
        Regex::new("^start|end$").unwrap().match_expression("start with start"),
        Ok(true)
    );
    assert_eq!(
        Regex::new("^start|end$").unwrap().match_expression("end with start"),
        Ok(false)
    );
}

#[test]
fn test_match_expression_brackets() {
    assert_eq!(Regex::new("[a]").unwrap().match_expression("a"), Ok(true));
    assert_eq!(Regex::new("[a]").unwrap().match_expression("ab"), Ok(true));
    assert_eq!(Regex::new("[abc]").unwrap().match_expression("c"), Ok(true));
    assert_eq!(Regex::new("[abc]").unwrap().match_expression("ab"), Ok(true));
    assert_eq!(Regex::new("v[aeiou]cal").unwrap().match_expression("vocal"), Ok(true));
    assert_eq!(
        Regex::new("v[aeiou]c[aeiou]l").unwrap().match_expression("vocal"),
        Ok(true)
    );
    assert_eq!(
        Regex::new("v[aeiou]c[aeiou]l").unwrap().match_expression("voucal"),
        Ok(false)
    );
    assert_eq!(
        Regex::new("v[aeo]c[iou]l").unwrap().match_expression("vocal"),
        Ok(false)
    );
    assert_eq!(Regex::new("[[je]").unwrap().match_expression("a["), Ok(true));
}

#[test]
fn test_match_expression_negated_brackets() {
    assert_eq!(
        Regex::new("mo[^aeiou]tadela").unwrap().match_expression("mortadela"),
        Ok(true)
    );
    assert_eq!(
        Regex::new("mo[^aeiou]tadela").unwrap().match_expression("mootadela"),
        Ok(false)
    );
    assert_eq!(Regex::new("a[^abc]bc").unwrap().match_expression("abc"), Ok(false));
    assert_eq!(Regex::new("a[^abc]bc").unwrap().match_expression("aebc"), Ok(true));
    assert_eq!(Regex::new("a[^abc]bc").unwrap().match_expression("aabc"), Ok(false));
}

#[test]
fn test_match_expression_alternance_precedence() {
    assert_eq!(Regex::new("abc|de+f").unwrap().match_expression("abc"), Ok(true));
    assert_eq!(Regex::new("abc|de+f").unwrap().match_expression("def"), Ok(true));
    assert_eq!(Regex::new("abc|de+f").unwrap().match_expression("deef"), Ok(true));
    assert_eq!(Regex::new("abc|de+f").unwrap().match_expression("df"), Ok(false));
    assert_eq!(Regex::new("abc|de+f").unwrap().match_expression("cde"), Ok(false));
}

#[test]
fn test_match_expression_multiples_wildcard_any() {
    assert_eq!(
        Regex::new("ab.*c.*f").unwrap().match_expression("abzzzczzzf"),
        Ok(true)
    );
    assert_eq!(Regex::new("ab.*c.*f").unwrap().match_expression("abzzzcf"), Ok(true));
    assert_eq!(Regex::new("ab.*c.*f").unwrap().match_expression("abcf"), Ok(true));
    assert_eq!(Regex::new("ab.*c.*f").unwrap().match_expression("abzcfe"), Ok(true));
    assert_eq!(Regex::new("ab.*c.*f").unwrap().match_expression("abzczzz"), Ok(false));
}

#[test]
fn test_match_expression_range() {
    assert_eq!(Regex::new("a{2}").unwrap().match_expression("aa"), Ok(true));
    assert_eq!(Regex::new("ab{2,4}cd").unwrap().match_expression("aabbcd"), Ok(true));
    assert_eq!(Regex::new("ab{2,4}cd").unwrap().match_expression("aabbbcd"), Ok(true));
    assert_eq!(Regex::new("ab{2,4}cd").unwrap().match_expression("abbbbcd"), Ok(true));
    assert_eq!(Regex::new("ab{2,4}cd").unwrap().match_expression("abcd"), Ok(false));
    assert_eq!(
        Regex::new("ab{2,4}cd").unwrap().match_expression("abbbbbbcd"),
        Ok(false)
    );
    assert_eq!(Regex::new("ab{2,4}cd").unwrap().match_expression("cabbcd"), Ok(true));
}

#[test]
fn test_match_expression_range_max() {
    assert_eq!(Regex::new("a{,3}b").unwrap().match_expression("aab"), Ok(true));
    assert_eq!(Regex::new("a{,3}b").unwrap().match_expression("ab"), Ok(true));
    assert_eq!(Regex::new("a{,3}b").unwrap().match_expression("b"), Ok(true));
    assert_eq!(Regex::new("a{,3}b").unwrap().match_expression("eaaaab"), Ok(true));
}

#[test]
fn test_match_expression_range_min() {
    assert_eq!(Regex::new("ea{3,}b").unwrap().match_expression("aaab"), Ok(false));
    assert_eq!(Regex::new("ea{3,}b").unwrap().match_expression("aaab"), Ok(false));
    assert_eq!(Regex::new("ea{3,}b").unwrap().match_expression("eaaab"), Ok(true));
    assert_eq!(Regex::new("efga{3,}").unwrap().match_expression("efgaa"), Ok(false));
    assert_eq!(Regex::new("efga{3,}").unwrap().match_expression("efgaaaa"), Ok(true));
}

#[test]
fn test_match_expression_character_classes() {
    assert_eq!(Regex::new("[[:alpha:]]").unwrap().match_expression("a"), Ok(true));
    assert_eq!(Regex::new("[[:alpha:]]").unwrap().match_expression("A"), Ok(true));
    assert_eq!(
        Regex::new("[[:alnum:]]hola").unwrap().match_expression("1hola"),
        Ok(true)
    );
    assert_eq!(Regex::new("[[:digit:]]").unwrap().match_expression("1"), Ok(true));
    assert_eq!(Regex::new("[[:digit:]]a").unwrap().match_expression("2b"), Ok(false));
    assert_eq!(
        Regex::new("hola[[:space:]]mundo").unwrap().match_expression("hola mundo"),
        Ok(true)
    );
    assert_eq!(
        Regex::new("el caracter [[:alnum:]] no es un simbolo")
            .unwrap()
            .match_expression("el caracter 2 no es un simbolo"),
        Ok(true)
    );
    assert_eq!(
        Regex::new("[[:upper:]]ascal[[:upper:]]ase")
            .unwrap()
            .match_expression("PascalCase"),
        Ok(true)
    );
    assert_eq!(
        Regex::new("hola [[:alpha:]]+").unwrap().match_expression("hola mundo"),
        Ok(true)
    );
    assert_eq!(
        Regex::new("hola [[:alpha:]]+").unwrap().match_expression("hola a"),
        Ok(true)
    );
}

#[test]
fn test_match_expression_brackets_range() {
    assert_eq!(Regex::new("[a-e]").unwrap().match_expression("a"), Ok(true));
    assert_eq!(Regex::new("[a-e]").unwrap().match_expression("b"), Ok(true));
    assert_eq!(Regex::new("hol[a-z]").unwrap().match_expression("holu"), Ok(true));
    assert_eq!(Regex::new("[a-z]").unwrap().match_expression("A"), Ok(false));
    assert_eq!(Regex::new("[a-c]as[a-e]").unwrap().match_expression("casa"), Ok(true));
}
