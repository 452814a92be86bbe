use hockey_stats::cleaning::clean_fields;
use hockey_stats::model::Position;

#[test]
fn test_clean_fields_center() {
    let input = r#"1,"Player One","C",,,,33.0,7.0,10.0,,,,,,,,,,,,,,,27.0,,,,30.0,18.0,,,,,,,,,,,,,,,,,"#;
    let result = clean_fields(input);
    assert!(result.is_some(), "Failed to clean fields for valid input");

    let (name, positions, metrics) = result.unwrap();
    assert_eq!(name, "Player One");
    assert_eq!(positions, vec![Position::Center]);
    assert!(metrics.contains(Position::Center));
}

#[test]
fn test_clean_fields_center_values() {
    // Column layout: faceoff% at 33, total points at 9, takeaways at 27,
    // first assists at 7, points share at 10.
    let mut fields = vec![String::new(); 40];
    fields[1] = "\"Ada Center\"".to_string();
    fields[2] = "\"C\"".to_string();
    fields[33] = "33.0".to_string();
    fields[9] = "7.0".to_string();
    fields[27] = "10.0".to_string();
    fields[7] = "4.0".to_string();
    fields[10] = "55.5".to_string();
    let line = fields.join(",");
    let (name, positions, metrics) = clean_fields(&line).unwrap();
    assert_eq!(name, "Ada Center");
    assert_eq!(positions, vec![Position::Center]);
    let center = metrics.get(Position::Center).unwrap();
    assert_eq!(center, &vec![33000i64, 7000, 10000, 4000, 55500]);
    assert!(metrics.get(Position::Wing).is_none());
    assert!(metrics.get(Position::Defense).is_none());
}

#[test]
fn test_clean_fields_single_wing() {
    let mut fields = vec![String::new(); 40];
    fields[1] = "Wingy".to_string();
    fields[2] = "L".to_string();
    fields[5] = "20.0".to_string();
    fields[12] = "12.5".to_string();
    fields[18] = "30.0".to_string();
    fields[9] = "44.0".to_string();
    fields[28] = "80.0".to_string();
    let line = fields.join(",");
    let (name, positions, metrics) = clean_fields(&line).unwrap();
    assert_eq!(name, "Wingy");
    assert_eq!(positions, vec![Position::Wing]);
    let wing = metrics.get(Position::Wing).unwrap();
    assert_eq!(wing.len(), 5);
    assert_eq!(wing, &vec![20000i64, 12500, 30000, 44000, 80000]);
}

#[test]
fn test_clean_fields_dual_wing_extends() {
    // A single "L/R" row accumulates a ten-value wing vector and lists
    // Wing twice.
    let mut fields = vec![String::new(); 40];
    fields[1] = "Dual Wing".to_string();
    fields[2] = "L/R".to_string();
    fields[5] = "20.0".to_string();
    let line = fields.join(",");
    let (_, positions, metrics) = clean_fields(&line).unwrap();
    assert_eq!(positions, vec![Position::Wing, Position::Wing]);
    let wing = metrics.get(Position::Wing).unwrap();
    assert_eq!(wing.len(), 10);
    assert_eq!(wing[0], 20000);
    assert_eq!(wing[5], 20000);
}

#[test]
fn test_clean_fields_defense() {
    let mut fields = vec![String::new(); 40];
    fields[1] = "Blue Liner".to_string();
    fields[2] = "D".to_string();
    fields[28] = "100.0".to_string();
    fields[30] = "60.0".to_string();
    fields[27] = "25.0".to_string();
    fields[9] = "15.0".to_string();
    fields[18] = "8.0".to_string();
    let line = fields.join(",");
    let (_, positions, metrics) = clean_fields(&line).unwrap();
    assert_eq!(positions, vec![Position::Defense]);
    let d = metrics.get(Position::Defense).unwrap();
    assert_eq!(d, &vec![100000i64, 60000, 25000, 15000, 8000]);
}

#[test]
fn test_clean_fields_short_row_rejected() {
    // 33 fields: one below the minimum.
    let line = vec!["x"; 33].join(",");
    assert!(clean_fields(&line).is_none());
}

#[test]
fn test_clean_fields_missing_name_rejected() {
    let mut fields = vec!["0".to_string(); 40];
    fields[1] = String::new();
    fields[2] = "C".to_string();
    let line = fields.join(",");
    assert!(clean_fields(&line).is_none());
}

#[test]
fn test_clean_fields_missing_position_rejected() {
    let mut fields = vec!["0".to_string(); 40];
    fields[1] = "Someone".to_string();
    fields[2] = String::new();
    let line = fields.join(",");
    assert!(clean_fields(&line).is_none());
}

#[test]
fn test_clean_fields_invalid_token_rejected() {
    // One bad token rejects the whole row, valid tokens beside it or not.
    let mut fields = vec![String::new(); 40];
    fields[1] = "Goalie".to_string();
    fields[2] = "G".to_string();
    let line = fields.join(",");
    assert!(clean_fields(&line).is_none());

    let mut fields = vec![String::new(); 40];
    fields[1] = "Mixed".to_string();
    fields[2] = "C/G".to_string();
    let line = fields.join(",");
    assert!(clean_fields(&line).is_none());
}

#[test]
fn test_clean_fields_non_numeric_defaults() {
    // A metric field that does not parse takes the default value 0,
    // silently; the row is still accepted.
    let mut fields = vec![String::new(); 40];
    fields[1] = "Unparsed".to_string();
    fields[2] = "C".to_string();
    fields[33] = "n/a".to_string();
    fields[9] = "7.0".to_string();
    let line = fields.join(",");
    let (_, _, metrics) = clean_fields(&line).unwrap();
    let center = metrics.get(Position::Center).unwrap();
    assert_eq!(center, &vec![0i64, 7000, 0, 0, 0]);
}
