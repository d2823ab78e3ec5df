use biot_savart::engine::components::expr::ExprError;
use biot_savart::engine::components::lexer::tokenize;
use biot_savart::engine::components::token::Token;

/// The literals the tokenizer accepts are exactly those `f64::from_str` accepts.
#[test]
fn number_literals_agree_with_f64_parsing() {
    let candidates = [
        "0", "12", "1.", ".5", "1.5", "1.e5", "1e5", "1E5", "1e+5", "1e-5", "2.5E-3", "00.00",
        ".", "..", "1..2", "1.2.3", "1e", "1e+", "1e-", "e5", ".e5", "1ee5", "1e5e5", "1e5.5",
        "1.5e", "3e+-2", "1e.5", "9999999999999999999999e999",
    ];
    for c in candidates {
        let std_accepts = c.parse::<f64>().is_ok();
        if c.starts_with('e') {
            // a name, not a number
            assert_eq!(tokenize(c).unwrap(), vec![Token::Ident(c.to_string())]);
            assert!(!std_accepts);
            continue;
        }
        match tokenize(c) {
            Ok(toks) => {
                assert_eq!(toks, vec![Token::Num(c.to_string())], "{c}");
                assert!(std_accepts, "library accepted {c}, f64 parsing refuses it");
            }
            Err(ExprError::InvalidNumber(lit)) => {
                // the refused literal is the number scanned from the start of the text
                assert!(c.starts_with(lit.as_str()), "{c}: {lit}");
                assert!(lit.parse::<f64>().is_err(), "library refused {lit}, f64 parsing accepts it");
                if lit == c {
                    assert!(!std_accepts);
                }
            }
            Err(other) => panic!("{c}: {other:?}"),
        }
    }
}
