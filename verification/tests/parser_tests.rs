use gif_tool::parser::{rename_symbols, validate_lvgl_image, validate_lvgl_image_content, ParserError};

const SAMPLE: &str = r#"
const uint8_t my_gif_map[] = { 0x00, 0x01, 0x02 };

const lv_img_dsc_t my_gif = {
    .header.always_zero = 0,
    .data = my_gif_map,
};
"#;

#[test]
fn test_validate_lvgl_image_content_happy_path() {
    let result = validate_lvgl_image_content(SAMPLE);
    assert!(result.is_ok());
    let info = result.unwrap();
    assert_eq!(info.original_name, "my_gif");
}

#[test]
fn test_not_lvgl_image() {
    let content = "int main() { return 0; }";
    let result = validate_lvgl_image_content(content);
    assert!(matches!(result, Err(ParserError::NotLvglImage)));
}

#[test]
fn test_multiple_declarations() {
    let content = r#"
const lv_img_dsc_t img1 = {};
const lv_img_dsc_t img2 = {};
"#;
    let result = validate_lvgl_image_content(content);
    assert!(matches!(result, Err(ParserError::AmbiguousDeclarations)));
}

#[test]
fn test_symbol_mismatch() {
    let content = r#"
const uint8_t wrong_name_map[] = { 0x00 };
const lv_img_dsc_t my_gif = {};
"#;
    let result = validate_lvgl_image_content(content);
    assert!(matches!(result, Err(ParserError::SymbolMismatch)));
}

#[test]
fn test_rename_symbols() {
    let result = rename_symbols(SAMPLE, "angry").unwrap();
    assert!(result.contains("angry_map"));
    assert!(result.contains("lv_img_dsc_t angry"));
    assert!(!result.contains("my_gif_map"));
    assert!(!result.contains("lv_img_dsc_t my_gif"));
}

#[test]
fn test_rename_symbols_multiple_references() {
    let sample_content = r#"
const uint8_t test_map[] = { 0x00 };
const lv_img_dsc_t test = {
    .data = test_map,
    .data_size = sizeof(test_map),
};
"#;

    let result = rename_symbols(sample_content, "happy").unwrap();
    assert!(result.contains("happy_map"));
    assert!(result.contains("lv_img_dsc_t happy"));
    // Verify all occurrences are replaced (including inside sizeof())
    assert_eq!(result.matches("happy_map").count(), 3);
}

#[test]
fn size_is_counted_in_bytes() {
    let content = "const uint8_t é_map[] = {};\nconst lv_img_dsc_t é = {};\n";
    let info = validate_lvgl_image_content(content).unwrap();
    assert_eq!(info.original_name, "é");
    assert_eq!(info.file_size_bytes, content.len());
    assert_eq!(info.file_size_bytes, 57);
}

#[test]
fn unreadable_file_is_reported() {
    assert!(matches!(validate_lvgl_image(None), Err(ParserError::FileReadError)));
    assert_eq!(validate_lvgl_image(Some(SAMPLE)).unwrap().original_name, "my_gif");
}

#[test]
fn descriptor_name_is_a_whole_word() {
    // The map array of `my_gif2` does not count for `my_gif`.
    let content = "const uint8_t my_gif2_map[] = {};\nconst lv_img_dsc_t my_gif = {};\n";
    assert!(matches!(validate_lvgl_image_content(content), Err(ParserError::SymbolMismatch)));
    // Whitespace between the type and the name may span lines and tabs.
    let content = "const uint8_t a_map[] = {};\nconst lv_img_dsc_t\n\t a = {};\n";
    assert_eq!(validate_lvgl_image_content(content).unwrap().original_name, "a");
    // A descriptor inside the name of the first one is no second descriptor.
    let content = "uint8_t xlv_img_dsc_t_map[];\nlv_img_dsc_t xlv_img_dsc_t\n";
    assert_eq!(validate_lvgl_image_content(content).unwrap().original_name, "xlv_img_dsc_t");
}

#[test]
fn rename_keeps_other_words() {
    let content = "uint8_t a_map[];\nlv_img_dsc_t a = { .data = a_map, .x = ba_map, .y = a_mapx };\n";
    let out = rename_symbols(content, "b").unwrap();
    assert_eq!(out, "uint8_t b_map[];\nlv_img_dsc_t b = { .data = b_map, .x = ba_map, .y = a_mapx };\n");
}

#[test]
fn rename_reads_the_target_as_a_template() {
    // `$$` stands for a dollar sign, `$0` for the whole match, and an unknown
    // group for nothing, as in the regex crate's replacement strings.
    let content = "uint8_t a_map[];\nlv_img_dsc_t a;\n";
    let out = rename_symbols(content, "x$$y").unwrap();
    assert_eq!(out, "uint8_t x$y_map[];\nlv_img_dsc_t x$y;\n");
    let out = rename_symbols(content, "z$9").unwrap();
    assert_eq!(out, "uint8_t z[];\nlv_img_dsc_t z;\n");
    let out = rename_symbols(content, "${0}!").unwrap();
    assert_eq!(out, "uint8_t a_map!_map[];\nlv_img_dsc_t lv_img_dsc_t a!;\n");
    // `$_map` names a group too, which does not exist.
    let out = rename_symbols(content, "q$").unwrap();
    assert_eq!(out, "uint8_t q[];\nlv_img_dsc_t q$;\n");
}

#[test]
fn rename_errors_match_validation() {
    assert!(matches!(rename_symbols("nothing", "x"), Err(ParserError::NotLvglImage)));
}

#[test]
fn parser_messages() {
    assert_eq!(
        ParserError::NotLvglImage.message(),
        "Not a valid LVGL image file. Missing lv_img_dsc_t declaration."
    );
    assert_eq!(ParserError::FileReadError.message(), "Cannot read file");
}

#[test]
fn renamed_image_validates_under_the_new_name() {
    let sources = [
        "const uint8_t my_gif_map[] = { 0x00 };\nconst lv_img_dsc_t my_gif = { .data = my_gif_map };\n",
        "const lv_img_dsc_t  happy = {};\nconst uint8_t\thappy_map[] = {};\n// happy_map again: happy_map\n",
        "/* lv_img_dsc_t */ int x;\nuint8_t   a_map[] = {1};\nlv_img_dsc_t a = { a_map };\n",
    ];
    for src in sources {
        for target in ["angry", "sleepy_2", "x"] {
            let renamed = rename_symbols(src, target).unwrap();
            assert_eq!(validate_lvgl_image_content(&renamed).unwrap().original_name, target);
        }
    }
}

#[test]
fn renaming_to_the_array_name_doubles_the_suffix() {
    let src = "const uint8_t abc_map[] = {};\nconst lv_img_dsc_t abc = {};\n";
    let renamed = rename_symbols(src, "abc_map").unwrap();
    assert!(renamed.contains("lv_img_dsc_t abc_map_map ="));
    assert!(matches!(validate_lvgl_image_content(&renamed), Err(ParserError::SymbolMismatch)));
}

#[test]
fn array_declared_inside_the_name_is_lost() {
    let src = "lv_img_dsc_t xuint8_t xuint8_t_map[] = {};\n";
    assert_eq!(validate_lvgl_image_content(src).unwrap().original_name, "xuint8_t");
    let renamed = rename_symbols(src, "angry").unwrap();
    assert!(matches!(validate_lvgl_image_content(&renamed), Err(ParserError::SymbolMismatch)));
}
