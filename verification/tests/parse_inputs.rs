//! Whole-pattern parses over a corpus of real patterns: each one must run
//! to a definite result without panicking.

use regex_tree::parser::parse;

#[test]
fn parse_regexp_parse_1() {
    println!("{:?}", parse(b"[A-Z]{1,2}"));
}

#[test]
fn parse_regexp_parse_2() {
    println!("{:?}", parse(b"[\\w]{1,2}"));
}

#[test]
fn parse_regexp_parse_3() {
    println!(
        "{:?}",
        parse(b"\\w+([-+.]\\w+)*@\\w+([-.]\\w+)*\\.\\w+([-.]\\w+)*")
    );
}

#[test]
fn parse_regexp_parse_4() {
    println!("{:?}", parse(r"^[\w\.\']{2,}([\s][\w\.\']{2,})+$".as_bytes()));
}

#[test]
fn parse_regexp_parse_5() {
    println!(
        "{:?}",
        parse(r"^([a-z][a-z0-9\-]+(\.|\-*\.))+[a-z]{2,6}$".as_bytes())
    );
}

#[test]
fn parse_regexp_parse_6() {
    println!(
        "{:?}",
        parse(
            r"^(\d|[1-9]\d|1\d\d|2[0-4]\d|25[0-5])\.(\d|[1-9]\d|1\d\d|2[0-4]\d|25[0-5]){3}$"
                .as_bytes()
        )
    );
}

#[test]
fn parse_regexp_parse_7() {
    println!(
        "{:?}",
        parse(r"^[\_]*([a-z0-9]+(\.|\_*)?)+@([a-z][a-z0-9\-]+(\.|\-*\.))+[a-z]{2,6}$".as_bytes())
    );
}

#[test]
fn parse_regexp_parse_8() {
    println!(
        "{:?}",
        parse(
            r"^([1-9]|0[1-9]|[12][0-9]|3[01])\D([1-9]|0[1-9]|1[012])\D(19[0-9][0-9]|20[0-9][0-9])$"
                .as_bytes()
        )
    );
}

#[test]
fn parse_regexp_parse_9() {
    println!(
        "{:?}",
        parse(r"^-?([1-9]\d*\.\d*|0\.\d*[1-9]\d*|0?\.0+|0)$".as_bytes())
    );
}

#[test]
fn parse_regexp_parse_10() {
    println!(
        "{:?}",
        parse(r"^[1-9]\d*\.\d*|0\.\d*[1-9]\d*|0?\.0+|0$".as_bytes())
    );
}

#[test]
fn parse_regexp_parse_11() {
    println!(
        "{:?}",
        parse(r"^(-([1-9]\d*\.\d*|0\.\d*[1-9]\d*))|0?\.0+|0$".as_bytes())
    );
}

#[test]
fn parse_regexp_parse_12() {
    println!(
        "{:?}",
        parse(r"^<([a-z]+)[^<a-z]+?(?:>(.*)<\/\1>)$".as_bytes())
    );
}

#[test]
fn parse_regexp_parse_13() {
    println!(
        "{:?}",
        parse(r"^<([a-z]+)[^<a-z]+?(?:>(.*)<\/\1>|\s+\/>)$".as_bytes())
    );
}

#[test]
fn parse_14() {
    println!(
        "{:?}",
        parse(r"^<([a-z]+)[^<a-z]+?(?:>(.*)<\/\\>|\s+\/>)$".as_bytes())
    );
}

#[test]
fn parse_15() {
    println!("{:?}", parse(r"(|)((()|(|))|())".as_bytes()));
}

#[test]
fn parse_16() {
    println!("{:?}", parse(r"(c((w)|e+)\?)*".as_bytes()));
}

#[test]
fn parse_17() {
    println!("{:?}", parse(r"(?:c(?:(?:w)|e+))*".as_bytes()));
}

#[test]
fn parse_18() {
    println!("{:?}", parse(r"a{2,2}|(c((w)|e+)\?)*[^^bd?\]]?$".as_bytes()));
}

#[test]
fn parse_19() {
    println!(
        "{:?}",
        parse(
            r"^(?:(?:25[0-5]|2[0-4][0-9]|[01]?[0-9][0-9]?)\.){3}(?:25[0-5]|2[0-4][0-9]|[01]?[0-9][0-9]?)$"
                .as_bytes()
        )
    );
}

#[test]
fn parse_20() {
    println!(
        "{:?}",
        parse(r"^(https?:\/\/)?([\da-z\.-]+)\.([a-z\.]{2,6})([\/\w \.-]*)*\/?$".as_bytes())
    );
}

#[test]
fn parse_21() {
    println!("{:?}", parse(r"[^\D12]+".as_bytes()));
}

#[test]
fn parse_22() {
    println!(
        "{:?}",
        parse(r"^([a-z0-9_\.-]+)@([\da-z\.-]+)\.([a-z\.]{2,6})$".as_bytes())
    );
}

#[test]
fn parse_23() {
    println!("{:?}", parse(r"^#?([a-f0-9]{6}|[a-f0-9]{3})$".as_bytes()));
}

#[test]
fn parse_24() {
    println!("{:?}", parse(r"^[a-z0-9_-]{6,18}$".as_bytes()));
}

#[test]
fn parse_25() {
    println!("{:?}", parse(r"^\w[-\w\d]\d{8}$".as_bytes()));
}

#[test]
fn parse_26() {
    println!("{:?}", parse(r".?[\W]{3,16}$".as_bytes()));
}

#[test]
fn parse_27() {
    println!("{:?}", parse(r"^.?[.-.d \-~a-z0-9_-]{3,16}$".as_bytes()));
}

#[test]
fn parse_28() {
    println!(
        "{:?}",
        parse(r"\(\(\(ab\)*c\)*d\)\(ef\)*\(gh\)\{2\}\(ij\)*\(kl\)*\(mn\)*\(op\)*\(qr\)*".as_bytes())
    );
}

#[test]
fn parse_29() {
    println!("{:?}", parse(r"(c((a)|e+)\?)*[^^bd?\]]?$".as_bytes()));
}

#[test]
fn parse_30() {
    println!("{:?}", parse(r"^#?([a-f0-9]{6}|[a-f0-9]{3})$".as_bytes()));
}

#[test]
fn parse_31() {
    println!("{:?}", parse(r"(a)\1+?\\+?".as_bytes()));
}

#[test]
fn parse_32() {
    println!("{:?}", parse("\"(?:[^\"\\]++|\\.)*+\"".as_bytes()));
}

#[test]
fn parse_33() {
    println!(
        "{:?}",
        parse(r"^\D?(\d{3})\D?\D?(\d{3})\D?(\d{4})$".as_bytes())
    );
}

#[test]
fn parse_34() {
    println!(
        "{:?}",
        parse(
            r"^(http|https|ftp)\://[a-zA-Z0-9\-\.]+\.[a-zA-Z]{2,3}(:[a-zA-Z0-9]*)?/?([a-zA-Z0-9\-\._\?\,\'/\\\+&%\$#\=~])*$"
                .as_bytes()
        )
    );
}

#[test]
fn parse_35() {
    println!(
        "{:?}",
        parse(r"^(\d{5}-\d{4}|\d{5}|\d{9})$|^([a-zA-Z]\d[a-zA-Z] \d[a-zA-Z]\d)$".as_bytes())
    );
}

#[test]
fn parse_36() {
    println!(
        "{:?}",
        parse(
            r"\w+([-+.]\w+)*@\w+([-.]\w+)*\.\w+([-.]\w+)*([,;]\s*\w+([-+.]\w+)*@\w+([-.]\w+)*\.\w+([-.]\w+)*)*"
                .as_bytes()
        )
    );
}

#[test]
fn parse_37() {
    println!(
        "{:?}",
        parse(
            r"((?:(?:25[0-5]|2[0-4]\d|1\d\d|[1-9]?\d)\.){3}(?:25[0-5]|2[0-4]\d|1\d\d|[1-9]\d|[1-9]))"
                .as_bytes()
        )
    );
}

#[test]
fn parse_38() {
    println!(
        "{:?}",
        parse(r"(25[0-5]|2[0-4]\d|1\d\d|[1-9]?\d)(?:\.\1){3}".as_bytes())
    );
}

#[test]
fn parse_39() {
    println!("{:?}", parse(b"(a-z|A-Z|:;+)[cd]{2}\\1"));
}

#[test]
fn parse_regex_parse_13() {
    println!("{:?}", parse(b"([a-z|A-Z])"));
}
