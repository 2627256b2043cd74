use mdbook_summarizer::natural::{natural_cmp, natural_parts, to_natural_part, NaturalPart};
use std::cmp::Ordering;

#[test]
fn compares_natural_names() {
    assert_eq!(natural_cmp("chapter2.md", "chapter10.md"), Ordering::Less);
}

#[test]
fn natural_order_examples() {
    assert_eq!(natural_cmp("chapter10.md", "chapter2.md"), Ordering::Greater);
    assert_eq!(natural_cmp("a", "a"), Ordering::Equal);
    assert_eq!(natural_cmp("2", "a"), Ordering::Less);
    assert_eq!(natural_cmp("a2", "a02"), Ordering::Equal);
    assert_eq!(natural_cmp("abc", "abd"), Ordering::Less);
    assert_eq!(natural_cmp("ab", "abc"), Ordering::Less);
    assert_eq!(natural_cmp("", "a"), Ordering::Less);
    assert_eq!(natural_cmp("x1y", "x1"), Ordering::Greater);
}

#[test]
fn oversized_numbers_count_as_zero() {
    assert_eq!(natural_cmp("99999999999999999999", "1"), Ordering::Less);
    assert_eq!(natural_cmp("99999999999999999999", "0"), Ordering::Equal);
    assert_eq!(natural_cmp("18446744073709551615", "18446744073709551614"), Ordering::Greater);
}

#[test]
fn natural_order_laws_on_examples() {
    let names = ["ch1", "ch01", "ch10", "Ch2", "ch2a", "", "10", "b"];
    for a in names {
        assert_eq!(natural_cmp(a, a), Ordering::Equal);
        for b in names {
            assert_eq!(natural_cmp(b, a), natural_cmp(a, b).reverse());
            for c in names {
                if natural_cmp(a, b) != Ordering::Greater && natural_cmp(b, c) != Ordering::Greater {
                    assert_ne!(natural_cmp(a, c), Ordering::Greater);
                }
            }
        }
    }
}

#[test]
fn splits_names_into_parts() {
    assert_eq!(
        natural_parts("ch10.md"),
        vec![
            NaturalPart::Text("ch".to_string()),
            NaturalPart::Number(10),
            NaturalPart::Text(".md".to_string()),
        ]
    );
    assert_eq!(natural_parts(""), vec![]);
    assert_eq!(natural_parts("42"), vec![NaturalPart::Number(42)]);
}

#[test]
fn makes_single_parts() {
    assert_eq!(to_natural_part("007", true), NaturalPart::Number(7));
    assert_eq!(to_natural_part("+5", true), NaturalPart::Number(5));
    assert_eq!(to_natural_part("abc", true), NaturalPart::Number(0));
    assert_eq!(to_natural_part("", true), NaturalPart::Number(0));
    assert_eq!(to_natural_part("x1", false), NaturalPart::Text("x1".to_string()));
}

fn rejoin(parts: &[NaturalPart]) -> String {
    parts
        .iter()
        .map(|p| match p {
            NaturalPart::Text(t) => t.clone(),
            NaturalPart::Number(n) => n.to_string(),
        })
        .collect()
}

#[test]
fn natural_parts_rejoin_to_name() {
    for name in ["chapter10.md", "0", "a0b", "v2.10.3-rc1", "", "plain"] {
        assert_eq!(rejoin(&natural_parts(name)), name);
    }
    assert_eq!(rejoin(&natural_parts("ch007")), "ch7");
}
