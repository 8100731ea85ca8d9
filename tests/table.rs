use democracy_index::{extract, DemocracyQualities, ErrorKind, Field, RegimeType};

const HEADER: &str = "{| class=\"wikitable sortable\"\n|-\n! Rank !! Country !! Regime type !! Overall score\n";

fn block(rank_line: &str, code_line: Option<&str>, regime_line: &str, sub_line: &str) -> String {
    let mut s = String::from("|-\n|style=\"background:#ffffff;\"|\n");
    s.push_str(rank_line);
    s.push('\n');
    if let Some(c) = code_line {
        s.push_str(c);
        s.push('\n');
    }
    s.push_str(regime_line);
    s.push('\n');
    s.push_str(sub_line);
    s.push('\n');
    s
}

fn sweden() -> String {
    block(
        "|1",
        Some("| style=\"text-align:left;\" |{{SWE}}"),
        "|Full democracy||{{steady}}|'''9.39'''",
        "|{{steady}}||9.58||9.64||8.33||10.00||9.41",
    )
}

fn nepal() -> String {
    block(
        "|97|| style=\"text-align:left;\" |{{NPL}}",
        None,
        "|Hybrid regime||{{increase}}|'''4.60'''}}",
        "|{{steady}}||4.83||5.36||5.00||2.50||5.29}}",
    )
}

fn cuba() -> String {
    block(
        "|142",
        Some("| style=\"text-align:left;\" |{{CUB}}"),
        "|Authoritarian regime||{{decrease}}|'''2.58'''",
        "|{{steady}}||0.00||2.86||3.33||3.75||2.94",
    )
}

fn north_korea() -> String {
    block(
        "|165",
        Some("| style=\"text-align:left;\" |{{PRK}}"),
        "|Authoritarian regime||{{steady}}|'''1.08'''",
        "|{{steady}}||0.00||2.50||1.67||1.25||0.00",
    )
}

fn table(blocks: &[String]) -> String {
    let mut s = String::from(HEADER);
    for b in blocks {
        s.push_str(b);
    }
    s.push_str("|}\n");
    s
}

fn fixture() -> String {
    table(&[sweden(), nepal(), cuba(), north_korea()])
}

#[test]
fn test_sweden() {
    let d = extract(&fixture()).unwrap();
    let swe = DemocracyQualities {
        overall_score: 939,
        regime_type: RegimeType::FullDemocracy,
        electoral_process_and_pluralism: 958,
        functioning_of_government: 964,
        political_participation: 833,
        political_culture: 1000,
        civil_liberties: 941,
    };
    assert_eq!(d.get("SWE"), Some(&swe));
    assert_eq!(d.ranking()[0], (String::from("SWE"), swe));
}

#[test]
fn test_nepal() {
    let d = extract(&fixture()).unwrap();
    let npl = DemocracyQualities {
        overall_score: 460,
        regime_type: RegimeType::HybridRegime,
        electoral_process_and_pluralism: 483,
        functioning_of_government: 536,
        political_participation: 500,
        political_culture: 250,
        civil_liberties: 529,
    };
    assert_eq!(d.get("NPL"), Some(&npl));
    assert_eq!(d.ranking()[1], (String::from("NPL"), npl));
}

#[test]
fn test_cuba() {
    let d = extract(&fixture()).unwrap();
    let cub = DemocracyQualities {
        overall_score: 258,
        regime_type: RegimeType::Authoritarian,
        electoral_process_and_pluralism: 0,
        functioning_of_government: 286,
        political_participation: 333,
        political_culture: 375,
        civil_liberties: 294,
    };
    assert_eq!(d.get("CUB"), Some(&cub));
    assert_eq!(d.ranking()[2], (String::from("CUB"), cub));
}

#[test]
fn test_north_korea() {
    let d = extract(&fixture()).unwrap();
    let prk = DemocracyQualities {
        overall_score: 108,
        regime_type: RegimeType::Authoritarian,
        electoral_process_and_pluralism: 0,
        functioning_of_government: 250,
        political_participation: 167,
        political_culture: 125,
        civil_liberties: 0,
    };
    assert_eq!(d.get("PRK"), Some(&prk));
    assert_eq!(d.ranking()[3], (String::from("PRK"), prk));
}

#[test]
fn test_get_invalid() {
    let d = extract(&fixture()).unwrap();
    assert_eq!(d.get("X"), None);
    assert_eq!(d.get(""), None);
}

#[test]
fn two_country_table() {
    let d = extract(&table(&[sweden(), cuba()])).unwrap();
    assert_eq!(d.len(), 2);
    let swe = d.get("SWE").unwrap();
    assert_eq!(swe.overall_score, 939);
    assert_eq!(swe.electoral_process_and_pluralism, 958);
    assert_eq!(swe.functioning_of_government, 964);
    assert_eq!(swe.political_participation, 833);
    assert_eq!(swe.political_culture, 1000);
    assert_eq!(swe.civil_liberties, 941);
    assert_eq!(d.get("CUB").unwrap().electoral_process_and_pluralism, 0);
}

#[test]
fn ranking_keeps_table_order_and_matches_lookup() {
    let d = extract(&table(&[cuba(), sweden(), nepal()])).unwrap();
    let codes: Vec<&str> = d.ranking().iter().map(|(c, _)| c.as_str()).collect();
    assert_eq!(codes, vec!["CUB", "SWE", "NPL"]);
    for (code, record) in d.ranking() {
        assert_eq!(d.get(code), Some(record));
        assert_eq!(d.ranking().iter().filter(|(c, _)| c == code).count(), 1);
    }
}

#[test]
fn empty_input_gives_empty_dataset() {
    let d = extract("").unwrap();
    assert_eq!(d.len(), 0);
    assert!(d.ranking().is_empty());
    assert_eq!(d.get("SWE"), None);
}

#[test]
fn header_only_gives_empty_dataset() {
    let d = extract(&table(&[])).unwrap();
    assert_eq!(d.len(), 0);
}

#[test]
fn crlf_line_endings_are_read() {
    let d = extract(&fixture().replace('\n', "\r\n")).unwrap();
    assert_eq!(d.len(), 4);
    assert_eq!(d.get("SWE").unwrap().overall_score, 939);
}

#[test]
fn missing_regime_line_is_malformed_entry() {
    let b = String::from(
        "|-\n|style=\"x\"|\n|1\n| style=\"text-align:left;\" |{{SWE}}\n|-\n",
    );
    let e = extract(&table(&[b])).unwrap_err();
    assert_eq!(e.kind, ErrorKind::MalformedEntry);
    assert_eq!(e.field, Field::RegimeType);
    assert_eq!(e.code, "SWE");
}

#[test]
fn too_few_scores_is_malformed_entry() {
    let b = block(
        "|1",
        Some("| style=\"text-align:left;\" |{{SWE}}"),
        "|Full democracy||{{steady}}|'''9.39'''",
        "|{{steady}}||9.58||9.64||8.33||10.00",
    );
    let e = extract(&table(&[b])).unwrap_err();
    assert_eq!(e.kind, ErrorKind::MalformedEntry);
    assert_eq!(e.field, Field::SubScores);
}

#[test]
fn unterminated_table_fails() {
    let mut s = String::from(HEADER);
    s.push_str(&sweden());
    let e = extract(&s).unwrap_err();
    assert_eq!(e.kind, ErrorKind::UnterminatedTable);
    assert_eq!(e.code, "SWE");
    assert_eq!(e.line, s.lines().count());
}

#[test]
fn unknown_regime_label_fails() {
    let b = block(
        "|1",
        Some("| style=\"text-align:left;\" |{{SWE}}"),
        "|Full Democracy||{{steady}}|'''9.39'''",
        "|{{steady}}||9.58||9.64||8.33||10.00||9.41",
    );
    let e = extract(&table(&[b])).unwrap_err();
    assert_eq!(e.kind, ErrorKind::UnknownRegimeLabel);
    assert_eq!(e.line, 8);
    assert_eq!(e.code, "SWE");
}

#[test]
fn malformed_overall_score_fails() {
    let b = block(
        "|1",
        Some("| style=\"text-align:left;\" |{{SWE}}"),
        "|Full democracy||{{steady}}|'''9,39'''",
        "|{{steady}}||9.58||9.64||8.33||10.00||9.41",
    );
    let e = extract(&table(&[b])).unwrap_err();
    assert_eq!(e.kind, ErrorKind::MalformedScore);
    assert_eq!(e.field, Field::OverallScore);
}

#[test]
fn malformed_sub_score_fails() {
    let b = block(
        "|1",
        Some("| style=\"text-align:left;\" |{{SWE}}"),
        "|Full democracy||{{steady}}|'''9.39'''",
        "|{{steady}}||9.58||n/a||8.33||10.00||9.41",
    );
    let e = extract(&table(&[b])).unwrap_err();
    assert_eq!(e.kind, ErrorKind::MalformedScore);
    assert_eq!(e.field, Field::SubScores);
}

#[test]
fn missing_overall_marker_is_malformed_entry() {
    let b = block(
        "|1",
        Some("| style=\"text-align:left;\" |{{SWE}}"),
        "|Full democracy||{{steady}}|9.39",
        "|{{steady}}||9.58||9.64||8.33||10.00||9.41",
    );
    let e = extract(&table(&[b])).unwrap_err();
    assert_eq!(e.kind, ErrorKind::MalformedEntry);
    assert_eq!(e.field, Field::OverallScore);
}

#[test]
fn missing_code_bracket_fails() {
    let b = block(
        "|1",
        Some("| style=\"text-align:left;\" |SWE"),
        "|Full democracy||{{steady}}|'''9.39'''",
        "|{{steady}}||9.58||9.64||8.33||10.00||9.41",
    );
    let e = extract(&table(&[b])).unwrap_err();
    assert_eq!(e.kind, ErrorKind::MissingBracketMarker);
    assert_eq!(e.field, Field::Code);
    assert_eq!(e.code, "");
}

#[test]
fn inline_code_without_closing_braces_fails() {
    let b = block(
        "|1|| style=\"text-align:left;\" |{{SWE",
        None,
        "|Full democracy||{{steady}}|'''9.39'''",
        "|{{steady}}||9.58||9.64||8.33||10.00||9.41",
    );
    let e = extract(&table(&[b])).unwrap_err();
    assert_eq!(e.kind, ErrorKind::MissingBracketMarker);
}

#[test]
fn duplicate_code_fails() {
    let e = extract(&table(&[sweden(), sweden()])).unwrap_err();
    assert_eq!(e.kind, ErrorKind::DuplicateCode);
    assert_eq!(e.code, "SWE");
}

#[test]
fn extra_line_in_block_fails() {
    let mut b = sweden();
    b.push_str("|extra\n");
    let e = extract(&table(&[b])).unwrap_err();
    assert_eq!(e.kind, ErrorKind::MalformedEntry);
    assert_eq!(e.field, Field::Layout);
}
