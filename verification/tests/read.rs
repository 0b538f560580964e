//! Reading files.

use zcode::schema::json::{Json, Member};
use zcode::text::path::PathCase;
use zcode::tools::approval::Tier;
use zcode::tools::calls::{
    plan_read, read_approval, read_dir_options, report_directory, report_picture, report_read,
    read_picture,
};
use zcode::tools::ls::{WalkEntry, WalkResult};
use zcode::tools::output::ToolError;
use zcode::tools::read::{continuation_hint, is_binary, out_of_bounds_message, page_lines, single_range};
use zcode::tools::selector::{
    merge_ranges, parse_selector, split_path_and_selector, LineRange, Selector,
};
use zcode::workspace::{components, Workspace};

#[test]
fn parses_bare_line_number() {
    assert_eq!(
        parse_selector("42").unwrap(),
        Selector::Lines {
            ranges: vec![LineRange {
                start: 42,
                end: None
            }],
            raw: false,
        }
    );
}

#[test]
fn parses_inclusive_range() {
    assert_eq!(
        parse_selector("5-16").unwrap(),
        Selector::Lines {
            ranges: vec![LineRange {
                start: 5,
                end: Some(16)
            }],
            raw: false,
        }
    );
}

#[test]
fn parses_count_range() {
    assert_eq!(
        parse_selector("5+10").unwrap(),
        Selector::Lines {
            ranges: vec![LineRange {
                start: 5,
                end: Some(14)
            }],
            raw: false,
        }
    );
}

#[test]
fn parses_open_ended_range() {
    assert_eq!(
        parse_selector("301-").unwrap(),
        Selector::Lines {
            ranges: vec![LineRange {
                start: 301,
                end: None
            }],
            raw: false,
        }
    );
}

#[test]
fn parses_comma_separated_multi_range() {
    assert_eq!(
        parse_selector("5-16,960-973").unwrap(),
        Selector::Lines {
            ranges: vec![
                LineRange {
                    start: 5,
                    end: Some(16)
                },
                LineRange {
                    start: 960,
                    end: Some(973)
                },
            ],
            raw: false,
        }
    );
}

#[test]
fn parses_raw_alone() {
    assert_eq!(parse_selector("raw").unwrap(), Selector::Raw);
    assert_eq!(parse_selector("RAW").unwrap(), Selector::Raw);
}

#[test]
fn parses_raw_with_range_either_order() {
    let expected = Selector::Lines {
        ranges: vec![LineRange {
            start: 2,
            end: Some(4),
        }],
        raw: true,
    };
    assert_eq!(parse_selector("raw:2-4").unwrap(), expected);
    assert_eq!(parse_selector("2-4:raw").unwrap(), expected);
}

#[test]
fn merges_overlapping_ranges() {
    assert_eq!(
        parse_selector("5-16,10-20").unwrap(),
        Selector::Lines {
            ranges: vec![LineRange {
                start: 5,
                end: Some(20)
            }],
            raw: false,
        }
    );
}

#[test]
fn rejects_invalid_compound_selector() {
    assert!(parse_selector("raw:raw").is_err());
    assert!(parse_selector("5-10:20-30").is_err());
}

#[test]
fn rejects_zero_line_selector() {
    assert!(parse_selector("0").is_err());
}

#[test]
fn rejects_descending_range() {
    assert!(parse_selector("10-5").is_err());
}

#[test]
fn split_ignores_windows_drive_letters() {
    let (path, sel) = split_path_and_selector(r"C:\Users\zero\file.txt");
    assert_eq!(path, r"C:\Users\zero\file.txt");
    assert_eq!(sel, None);
}

#[test]
fn split_peels_trailing_selector() {
    let (path, sel) = split_path_and_selector("src/lib.rs:10-20");
    assert_eq!(path, "src/lib.rs");
    assert_eq!(sel, Some("10-20"));
}

#[test]
fn split_peels_compound_selector() {
    let (path, sel) = split_path_and_selector("src/lib.rs:raw:10-20");
    assert_eq!(path, "src/lib.rs");
    assert_eq!(sel, Some("raw:10-20"));
}

#[test]
fn out_of_bounds_message_gives_actionable_suggestion() {
    let msg = out_of_bounds_message(50, 10);
    assert!(msg.contains(":1"));
    assert!(msg.contains(":10"));
    assert!(msg.contains("10 行"));
}

#[test]
fn out_of_bounds_message_notes_empty_file() {
    let msg = out_of_bounds_message(1, 0);
    assert!(msg.contains("该文件为空"));
}

#[test]
fn continuation_hint_uses_next_offset() {
    let hint = continuation_hint(21, 5);
    assert_eq!(hint, "[还有 5 行。用 :21 继续]");
}


#[test]
fn read_beyond_eof_reports_actionable_bounds_and_next_offset() {
    let text = "a\nb\nc\n";
    let msg = single_range(text, 10, None, false, 300).expect_err("越界读取应当返回错误");
    assert!(msg.contains("3 行"));
    let shown = single_range(text, 1, None, false, 2).expect("在界内的读取不应失败");
    assert!(shown.contains("[还有 1 行。用 :3 继续]"));
}

#[test]
fn raw_selector_skips_context_expansion_and_line_numbers() {
    let shown = single_range("l1\nl2\nl3\n", 3, Some(3), true, 300).expect("raw 读取不应失败");
    assert_eq!(shown, "l3");
}

#[test]
fn explicit_range_expands_context() {
    let text = "l1\nl2\nl3\nl4\nl5\nl6\nl7\nl8\n";
    let shown = single_range(text, 3, Some(3), false, 300).expect("读取不应失败");
    assert!(shown.contains("2:l2"));
    assert!(shown.contains("3:l3"));
    assert!(shown.contains("6:l6"));
    assert!(!shown.contains("7:l7"));
}

fn ws() -> Workspace {
    Workspace::new(components("/w"), PathCase::Sensitive)
}

fn args(path: &str) -> Json {
    Json::Object(vec![Member { key: "path".to_owned(), value: Json::Text(path.to_owned()) }])
}

#[test]
fn several_ranges_become_blocks_with_headings() {
    let text = "l1\nl2\nl3\nl4\nl5\n";
    let selector = parse_selector("1-2,4,9-10").unwrap();
    let out = report_read("a.txt", text, &selector, 300).expect("some lines");
    assert_eq!(
        out.text,
        "--- 第 1-2 行 ---\n1:l1\n2:l2\n\n--- 第 4-EOF 行 ---\n4:l4\n5:l5"
    );
    assert_eq!(out.title, "a.txt");
}

#[test]
fn a_range_behind_the_end_is_told_in_its_block() {
    let selector = parse_selector("1-1,9-10").unwrap();
    let out = report_read("a.txt", "l1\nl2\n", &selector, 300).expect("some lines");
    assert_eq!(
        out.text,
        "--- 第 1-1 行 ---\n1:l1\n\n--- 第 9-10 行（超出文件末尾，共 2 行）---"
    );
}

#[test]
fn ranges_are_merged_into_one_form() {
    let merged = merge_ranges(&vec![
        LineRange { start: 7, end: Some(9) },
        LineRange { start: 1, end: Some(3) },
        LineRange { start: 4, end: Some(5) },
        LineRange { start: 20, end: None },
        LineRange { start: 30, end: Some(31) },
    ]);
    assert_eq!(
        merged,
        vec![
            LineRange { start: 1, end: Some(5) },
            LineRange { start: 7, end: Some(9) },
            LineRange { start: 20, end: None },
        ]
    );
}

#[test]
fn a_name_that_exists_beats_a_selector() {
    let plan = plan_read(&ws(), &args("a.txt:3-4"), true, None).expect("a plan");
    assert_eq!(plan.place.display, "a.txt:3-4");
    assert_eq!(plan.selector, Selector::Absent);
    let plan = plan_read(&ws(), &args("a.txt:3-4"), false, None).expect("a plan");
    assert_eq!(plan.place.display, "a.txt");
    assert_eq!(plan.place.path, components("/w/a.txt"));
    let want = Selector::Lines { ranges: vec![LineRange { start: 3, end: Some(4) }], raw: false };
    assert_eq!(plan.selector, want);
}

#[test]
fn bad_paths_are_refused() {
    let failed = |e: ToolError| match e {
        ToolError::Failed(text) => text,
        other => panic!("{other:?}"),
    };
    let none = plan_read(&ws(), &Json::Object(Vec::new()), false, None).expect_err("no path");
    assert_eq!(failed(none), "path 参数缺失或不是字符串。");
    let empty = plan_read(&ws(), &args(""), false, None).expect_err("an empty path");
    assert_eq!(failed(empty), "path 不能为空。");
    let selector = plan_read(&ws(), &args("a.txt:9-3"), false, None).expect_err("a bad selector");
    assert!(failed(selector).contains('9'));
}

#[test]
fn what_lies_outside_takes_more_agreement() {
    assert_eq!(read_approval(&ws(), &args("a.txt:1-2")).tier, Tier::Read);
    assert_eq!(read_approval(&ws(), &args("/etc/passwd:1-2")).tier, Tier::Write);
    assert_eq!(read_approval(&ws(), &Json::Null).tier, Tier::Read);
}

#[test]
fn a_zero_byte_makes_a_file_binary() {
    assert!(is_binary(b"a\0b"));
    assert!(!is_binary("text 中".as_bytes()));
}

#[test]
fn pages_have_a_least_and_a_greatest_length() {
    assert_eq!(page_lines(0), 1);
    assert_eq!(page_lines(2000), 2000);
    assert_eq!(page_lines(1_000_000), 3000);
}

#[test]
fn a_directory_is_shown_with_a_hint() {
    let options = read_dir_options();
    assert_eq!((options.max_depth, options.per_dir_limit), (2, 12));
    let result = WalkResult {
        entries: vec![WalkEntry { relative: vec!["src".to_owned()], depth: 1, is_dir: true }],
        truncated: false,
    };
    let out = report_directory("d", &result);
    assert_eq!(out.text, "d/\nsrc/\n\n0 个文件，1 个目录\n\n需要完整目录树请改用 ls 工具。");
    assert_eq!(out.title, "目录 d");
}

#[test]
fn a_binary_file_that_is_no_picture_is_refused() {
    let refused = read_picture("x.bin", b"\0\x01\x02\x03").expect("room").expect_err("no picture");
    match refused {
        ToolError::Failed(text) => assert_eq!(
            text,
            "'x.bin' 是二进制文件，无法按文本读取，也不是受支持的图片格式（无法识别图像格式）。"
        ),
        other => panic!("{other:?}"),
    }
}

#[test]
fn a_picture_is_given_back_in_base64() {
    let pixels = image::RgbImage::from_pixel(256, 256, image::Rgb([120, 40, 200]));
    let mut file = std::io::Cursor::new(Vec::new());
    image::DynamicImage::ImageRgb8(pixels)
        .write_to(&mut file, image::ImageFormat::Png)
        .expect("a file");
    let bytes = file.into_inner();
    let picture = read_picture("p.png", &bytes).expect("room").expect("a picture");
    let out = report_picture("p.png", &picture, "1.000", "1.000");
    assert_eq!(out.title, "p.png");
    assert_eq!(out.image.media_type, "image/png");
    assert!(out.image.data.starts_with("iVBORw0KGgo"));
    assert_eq!(out.image.data.len(), bytes.len().div_ceil(3) * 4);
    assert!(!bytes.starts_with(out.image.data.as_bytes()));
}

#[test]
fn pages_follow_one_another() {
    let text = "l1\nl2\nl3\nl4\nl5\n";
    let mut next = 1;
    let mut seen: Vec<String> = Vec::new();
    while next <= 5 {
        let page = single_range(text, next, None, true, 2).expect("a page");
        let lines: Vec<&str> = page.lines().take_while(|l| !l.is_empty()).collect();
        seen.extend(lines.iter().map(|l| (*l).to_owned()));
        next += lines.len();
        assert_eq!(page.contains(&format!("用 :{next} 继续")), next <= 5, "{page}");
    }
    assert_eq!(seen, ["l1", "l2", "l3", "l4", "l5"]);
}

#[test]
fn what_is_split_off_joins_back_and_is_a_selector() {
    for raw in ["a:1", "a:raw", "a:raw:1-2", "a:1,3-4:RAW", "a:b:5+2", "x::7-", "C:9"] {
        let (path, sel) = split_path_and_selector(raw);
        let sel = sel.expect("a selector");
        assert!(!path.is_empty());
        assert_eq!(format!("{path}:{sel}"), raw);
        assert!(!matches!(parse_selector(sel), Ok(Selector::Absent)));
    }
    for raw in ["", ":1", "a", "a:", "a:b", "C:\\x"] {
        assert_eq!(split_path_and_selector(raw), (raw, None));
    }
}
