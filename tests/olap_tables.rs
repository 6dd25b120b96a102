use iiko_bot::iiko::Server;
use iiko_bot::markdown::{escape, format_with_dots};
use iiko_bot::olap::{wrap_text, Olap, OlapElement, ReportConfig, Filter, PeriodType, ReportType, OLAP, OLAPList};

fn el(sum: &str, name: &str, guests: u32) -> OlapElement {
    OlapElement { dish_discount_sum: sum.to_string(), dish_name: name.to_string(), guest_num: guests }
}

fn row(cat: Option<&str>, name: &str, guests: u32) -> OLAP {
    OLAP {
        dish_category: cat.map(|c| c.to_string()),
        dish_discount_sum: "10".to_string(),
        dish_name: name.to_string(),
        guest_num: guests,
    }
}

#[test]
fn wrap_is_greedy_and_keeps_words_whole() {
    assert_eq!(
        wrap_text("Борщ с пампушками и сметаной", 15),
        vec!["Борщ с", "пампушками и", "сметаной"]
    );
    assert_eq!(wrap_text("  tea   with\tmilk ", 8), vec!["tea with", "milk"]);
}

#[test]
fn a_word_longer_than_the_width_stands_alone() {
    assert_eq!(
        wrap_text("Супердлинноеназвание блюда", 15),
        vec!["Супердлинноеназвание", "блюда"]
    );
}

#[test]
fn wrapping_nothing_gives_no_lines() {
    assert!(wrap_text("", 15).is_empty());
    assert!(wrap_text("   ", 15).is_empty());
}

#[test]
fn wrapped_lines_rejoin_to_the_words() {
    let text = "Салат из свежих овощей с зеленью и оливковым маслом";
    let lines = wrap_text(text, 15);
    assert_eq!(lines.join(" "), text.split_whitespace().collect::<Vec<_>>().join(" "));
    for l in &lines {
        assert!(l.chars().count() <= 15);
    }
}

#[test]
fn one_row_table_is_rendered_exactly() {
    let t = Server::display_olap(&vec![el("100", "Чай", 3)]);
    let expected = "```\n\
┌──────────┬───────┬────────┐\n\
│ Название │ Сумма │ Заказы │\n\
├──────────┼───────┼────────┤\n\
│ Чай      │ 100   │ 3      │\n\
└──────────┴───────┴────────┘\n\
```\n";
    assert_eq!(t, expected);
}

#[test]
fn rows_are_separated_and_names_wrap_within_a_row() {
    let t = Server::display_olap(&vec![
        el("5", "Кофе", 1),
        el("1250.5", "Борщ с пампушками и сметаной", 7),
    ]);
    let expected = "```\n\
┌─────────────────┬────────┬────────┐\n\
│    Название     │ Сумма  │ Заказы │\n\
├─────────────────┼────────┼────────┤\n\
│ Борщ с          │ 1250.5 │ 7      │\n\
│ пампушками и    │        │        │\n\
│ сметаной        │        │        │\n\
├─────────────────┼────────┼────────┤\n\
│ Кофе            │ 5      │ 1      │\n\
└─────────────────┴────────┴────────┘\n\
```\n";
    assert_eq!(t, expected);
}

fn data_lines(t: &str) -> Vec<&str> {
    t.lines().filter(|l| l.starts_with('│')).skip(1).collect()
}

#[test]
fn table_shows_at_most_twenty_rows_by_guests_descending() {
    let es: Vec<OlapElement> = (0..25u32).map(|i| el("1", &format!("d{i}"), (i * 7) % 25)).collect();
    let t = Server::display_olap(&es);
    let rows = data_lines(&t);
    assert_eq!(rows.len(), 20);
    let counts: Vec<u32> = rows
        .iter()
        .map(|l| l.split('│').nth(3).unwrap().trim().parse().unwrap())
        .collect();
    for w in counts.windows(2) {
        assert!(w[0] >= w[1]);
    }
    assert_eq!(counts[0], 24);
}

#[test]
fn equal_guest_counts_keep_their_order() {
    let t = Server::display_olap(&vec![el("1", "first", 2), el("1", "second", 2), el("1", "third", 5)]);
    let rows = data_lines(&t);
    assert!(rows[0].contains("third"));
    assert!(rows[1].contains("first"));
    assert!(rows[2].contains("second"));
}

#[test]
fn every_table_line_has_the_same_width() {
    let t = Server::display_olap(&vec![
        el("1234.75", "Пельмени домашние со сметаной", 12),
        el("99", "Морс", 40),
        el("0", "Хлеб", 0),
    ]);
    let widths: Vec<usize> = t.lines().filter(|l| !l.starts_with("```")).map(|l| l.chars().count()).collect();
    assert!(widths.len() > 5);
    assert!(widths.iter().all(|w| *w == widths[0]));
}

#[test]
fn rows_without_category_go_to_other() {
    let list = OLAPList {
        data: vec![
            row(Some("Супы"), "Борщ", 3),
            row(None, "Вода", 1),
            row(Some("Напитки"), "Морс", 2),
            row(Some("Супы"), "Солянка", 4),
            row(None, "Хлеб", 5),
        ],
    };
    let groups = Server::get_olap(&list);
    let keys: Vec<&str> = groups.iter().map(|g| g.0.as_str()).collect();
    assert_eq!(keys, vec!["Супы", "Другие", "Напитки"]);
    let names = |k: usize| groups[k].1.iter().map(|e| e.dish_name.as_str()).collect::<Vec<_>>();
    assert_eq!(names(0), vec!["Борщ", "Солянка"]);
    assert_eq!(names(1), vec!["Вода", "Хлеб"]);
    assert_eq!(names(2), vec!["Морс"]);
    let total: usize = groups.iter().map(|g| g.1.len()).sum();
    assert_eq!(total, list.data.len());
}

#[test]
fn grouping_no_rows_gives_no_groups() {
    assert!(Server::get_olap(&OLAPList { data: Vec::new() }).is_empty());
}

#[test]
fn month_sales_report_description() {
    let c = ReportConfig::month_sales(&"1999-09-03".to_string());
    assert_eq!(c.report_type, ReportType::SALES);
    assert_eq!(c.group_by_row_fields, vec!["DishCategory"]);
    assert_eq!(c.group_by_col_fields, vec!["DishName"]);
    assert_eq!(c.aggregate_fields, vec!["GuestNum", "DishDiscountSumInt"]);
    assert_eq!(c.filters.len(), 3);
    assert_eq!(c.filters[0].0, "OpenDate.Typed");
    assert!(matches!(&c.filters[0].1, Filter::DateRange { periodType: PeriodType::CURRENT_MONTH, to } if to == "1999-09-03"));
    assert!(matches!(&c.filters[2].1, Filter::IncludeValues { values } if values == &vec!["NOT_DELETED".to_string()]));
}

#[test]
fn markdown_reserved_characters_are_escaped() {
    assert_eq!(escape("1.234"), "1\\.234");
    assert_eq!(escape("a_b*c!"), "a\\_b\\*c\\!");
    assert_eq!(escape("Сервер"), "Сервер");
}

#[test]
fn numbers_are_grouped_by_dots() {
    assert_eq!(format_with_dots(0), "0");
    assert_eq!(format_with_dots(999), "999");
    assert_eq!(format_with_dots(1000), "1.000");
    assert_eq!(format_with_dots(1234567), "1.234.567");
    assert_eq!(format_with_dots(425), "425");
}

#[test]
fn empty_category_reports_nothing_found() {
    assert_eq!(Server::display_olap(&Vec::new()), "По вашим фильтрам ничего не найдено.");
}
