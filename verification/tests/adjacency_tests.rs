use couladj::AdjacencySet;
use couladj::Color;
use couladj::Dimensions;
use couladj::Location;
use couladj::Offset;
use couladj::Output;
use couladj::OutputMode;
use couladj::aggregate;
use couladj::color_adjacencies;
use couladj::from_index;
use couladj::offsets_4;
use couladj::offsets_8;
use couladj::pairs_at;
use couladj::project;
use couladj::render_table;
use couladj::to_index;
use couladj::to_sorted;
use couladj::PixelPair;

fn rgba(r: u8, g: u8, b: u8, a: u8) -> Color {
    Color { r, g, b, a }
}

fn pair(origin: Color, neighbor: Color) -> PixelPair {
    PixelPair { origin, neighbor }
}

const RED: Color = Color { r: 255, g: 0, b: 0, a: 255 };
const BLUE: Color = Color { r: 0, g: 0, b: 255, a: 255 };

#[test]
fn index_round_trip_3x4() {
    let dims = Dimensions { rows: 3, columns: 4 };
    for i in 0..12usize {
        let loc = from_index(i, dims);
        assert_eq!(to_index(loc, dims), i);
    }
    let loc = from_index(7, dims);
    assert_eq!(loc, Location { row: 1, column: 3 });
}

#[test]
fn location_round_trip_2x5() {
    let dims = Dimensions { rows: 2, columns: 5 };
    for row in 0..2usize {
        for column in 0..5usize {
            let loc = Location { row, column };
            assert_eq!(from_index(to_index(loc, dims), dims), loc);
        }
    }
}

#[test]
fn matches_len_checks_product() {
    let dims = Dimensions { rows: 3, columns: 4 };
    assert!(dims.matches_len(12));
    assert!(!dims.matches_len(11));
    let empty = Dimensions { rows: 0, columns: 7 };
    assert!(empty.matches_len(0));
}

#[test]
fn scenario_a_red_blue() {
    let dims = Dimensions { rows: 1, columns: 2 };
    let buffer = vec![RED, BLUE];
    let result = color_adjacencies(&buffer, dims, &offsets_4());
    assert_eq!(result.len(), 2);
    assert!(result.contains(&pair(RED, BLUE)));
    assert!(result.contains(&pair(BLUE, RED)));
}

#[test]
fn scenario_a_count_mode() {
    let dims = Dimensions { rows: 1, columns: 2 };
    let buffer = vec![RED, BLUE];
    let result = color_adjacencies(&buffer, dims, &offsets_4());
    match project(&result, OutputMode::Count) {
        Output::Count(c) => assert_eq!(c, 2),
        Output::Table(_) => panic!("count mode must yield a count"),
    }
}

#[test]
fn scenario_b_uniform_image() {
    let dims = Dimensions { rows: 2, columns: 2 };
    let c = rgba(7, 7, 7, 255);
    let buffer = vec![c, c, c, c];
    let result = color_adjacencies(&buffer, dims, &offsets_4());
    assert_eq!(result.len(), 0);
    let result8 = color_adjacencies(&buffer, dims, &offsets_8());
    assert_eq!(result8.len(), 0);
}

#[test]
fn scenario_c_single_pixel() {
    let dims = Dimensions { rows: 1, columns: 1 };
    let buffer = vec![RED];
    let result4 = color_adjacencies(&buffer, dims, &offsets_4());
    assert_eq!(result4.len(), 0);
    let result8 = color_adjacencies(&buffer, dims, &offsets_8());
    assert_eq!(result8.len(), 0);
}

#[test]
fn scenario_d_aba_row() {
    // one row of three pixels [A, B, A]: Down is out of bounds everywhere,
    // Right discovers (A,B) at index 0 and (B,A) at index 1
    let a = rgba(1, 2, 3, 4);
    let b = rgba(9, 8, 7, 6);
    let dims = Dimensions { rows: 1, columns: 3 };
    let buffer = vec![a, b, a];
    let one_directional = aggregate(&buffer, dims, &offsets_4());
    assert_eq!(one_directional.len(), 2);
    assert!(one_directional.contains(&pair(a, b)));
    assert!(one_directional.contains(&pair(b, a)));
    let result = one_directional.close();
    assert_eq!(result.len(), 2);
    assert!(result.contains(&pair(a, b)));
    assert!(result.contains(&pair(b, a)));
}

#[test]
fn scenario_e_table_mode() {
    let dims = Dimensions { rows: 1, columns: 2 };
    let buffer = vec![RED, BLUE];
    let result = color_adjacencies(&buffer, dims, &offsets_4());
    let bytes = match project(&result, OutputMode::Table) {
        Output::Table(bytes) => bytes,
        Output::Count(_) => panic!("table mode must yield a table"),
    };
    let text = String::from_utf8(bytes).unwrap();
    // sorted by origin color bytes then neighbor color bytes, so the
    // blue-origin row precedes the red-origin row
    let expected = "r\tg\tb\ta\tadj_r\tadj_g\tadj_b\tadj_a\n\
                    0\t0\t255\t255\t255\t0\t0\t255\n\
                    255\t0\t0\t255\t0\t0\t255\t255\n";
    assert_eq!(text, expected);
}

#[test]
fn no_self_pairs_in_checkerboard() {
    let a = rgba(0, 0, 0, 255);
    let b = rgba(255, 255, 255, 255);
    let dims = Dimensions { rows: 2, columns: 2 };
    let buffer = vec![a, b, b, a];
    let result = color_adjacencies(&buffer, dims, &offsets_8());
    for p in to_sorted(&result) {
        assert_ne!(p.origin, p.neighbor);
    }
}

#[test]
fn symmetry_of_closure() {
    let a = rgba(10, 20, 30, 40);
    let b = rgba(50, 60, 70, 80);
    let c = rgba(90, 100, 110, 120);
    let dims = Dimensions { rows: 2, columns: 2 };
    let buffer = vec![a, b, c, a];
    let result = color_adjacencies(&buffer, dims, &offsets_8());
    for p in to_sorted(&result) {
        assert!(result.contains(&p.swap()));
    }
}

#[test]
fn closure_is_idempotent() {
    let a = rgba(1, 1, 1, 1);
    let b = rgba(2, 2, 2, 2);
    let dims = Dimensions { rows: 1, columns: 3 };
    let buffer = vec![a, b, b];
    let once = aggregate(&buffer, dims, &offsets_4()).close();
    let twice = once.close();
    assert_eq!(to_sorted(&once), to_sorted(&twice));
}

#[test]
fn aggregation_is_deterministic() {
    let a = rgba(3, 1, 4, 1);
    let b = rgba(5, 9, 2, 6);
    let c = rgba(5, 3, 5, 8);
    let dims = Dimensions { rows: 2, columns: 3 };
    let buffer = vec![a, b, c, c, b, a];
    let first = color_adjacencies(&buffer, dims, &offsets_8());
    let second = color_adjacencies(&buffer, dims, &offsets_8());
    assert_eq!(to_sorted(&first), to_sorted(&second));
    assert_eq!(render_table(&to_sorted(&first)), render_table(&to_sorted(&second)));
}

#[test]
fn count_and_table_agree() {
    let a = rgba(0, 1, 2, 3);
    let b = rgba(4, 5, 6, 7);
    let c = rgba(8, 9, 10, 11);
    let dims = Dimensions { rows: 3, columns: 2 };
    let buffer = vec![a, b, c, a, b, c];
    let result = color_adjacencies(&buffer, dims, &offsets_4());
    let count = match project(&result, OutputMode::Count) {
        Output::Count(count) => count,
        Output::Table(_) => panic!("count mode must yield a count"),
    };
    let bytes = match project(&result, OutputMode::Table) {
        Output::Table(bytes) => bytes,
        Output::Count(_) => panic!("table mode must yield a table"),
    };
    let lines = bytes.iter().filter(|&&byte| byte == b'\n').count();
    assert_eq!(lines, count + 1);
    assert_eq!(count, result.len());
}

#[test]
fn eight_connected_discovers_diagonals() {
    let w = rgba(1, 0, 0, 255);
    let x = rgba(2, 0, 0, 255);
    let y = rgba(3, 0, 0, 255);
    let z = rgba(4, 0, 0, 255);
    let dims = Dimensions { rows: 2, columns: 2 };
    let buffer = vec![w, x, y, z];
    let four = color_adjacencies(&buffer, dims, &offsets_4());
    assert!(!four.contains(&pair(w, z)));
    assert!(!four.contains(&pair(x, y)));
    let eight = color_adjacencies(&buffer, dims, &offsets_8());
    assert!(eight.contains(&pair(w, z)));
    assert!(eight.contains(&pair(z, w)));
    assert!(eight.contains(&pair(x, y)));
    assert!(eight.contains(&pair(y, x)));
}

#[test]
fn pairs_at_respects_offset_order() {
    let a = rgba(1, 1, 1, 1);
    let b = rgba(2, 2, 2, 2);
    let c = rgba(3, 3, 3, 3);
    let dims = Dimensions { rows: 2, columns: 2 };
    // pixel 0 (color a) has neighbor b below (Down first) and c to the
    // right (Right second)
    let buffer = vec![a, c, b, c];
    let ps = pairs_at(&buffer, dims, &offsets_4(), 0);
    assert_eq!(ps, vec![pair(a, b), pair(a, c)]);
}

#[test]
fn pairs_at_filters_bounds_and_self() {
    let a = rgba(1, 1, 1, 1);
    let dims = Dimensions { rows: 2, columns: 2 };
    let buffer = vec![a, a, a, a];
    // every neighbor carries the same color: nothing is emitted
    for i in 0..4usize {
        assert!(pairs_at(&buffer, dims, &offsets_8(), i).is_empty());
    }
}

#[test]
fn insert_deduplicates() {
    let mut set = AdjacencySet::new();
    let p = pair(rgba(1, 2, 3, 4), rgba(5, 6, 7, 8));
    set.insert(p);
    set.insert(p);
    assert_eq!(set.len(), 1);
    assert!(set.contains(&p));
    assert!(!set.contains(&p.swap()));
}

#[test]
fn extend_is_set_union() {
    let p1 = pair(rgba(1, 0, 0, 0), rgba(2, 0, 0, 0));
    let p2 = pair(rgba(3, 0, 0, 0), rgba(4, 0, 0, 0));
    let mut left = AdjacencySet::new();
    left.insert(p1);
    left.insert(p2);
    let mut right = AdjacencySet::new();
    right.insert(p2);
    left.extend(&right);
    assert_eq!(left.len(), 2);
}

#[test]
fn rows_render_all_digit_widths() {
    let p = pair(rgba(0, 9, 10, 99), rgba(100, 255, 42, 7));
    let bytes = render_table(&vec![p]);
    let text = String::from_utf8(bytes).unwrap();
    let expected = "r\tg\tb\ta\tadj_r\tadj_g\tadj_b\tadj_a\n\
                    0\t9\t10\t99\t100\t255\t42\t7\n";
    assert_eq!(text, expected);
}

#[test]
fn sorted_output_is_lexicographic() {
    let small = rgba(0, 0, 0, 0);
    let mid = rgba(0, 0, 0, 1);
    let big = rgba(255, 255, 255, 255);
    let mut set = AdjacencySet::new();
    set.insert(pair(big, small));
    set.insert(pair(small, big));
    set.insert(pair(small, mid));
    let sorted = to_sorted(&set);
    assert_eq!(sorted, vec![pair(small, mid), pair(small, big), pair(big, small)]);
}

#[test]
fn empty_buffer_zero_rows() {
    let dims = Dimensions { rows: 0, columns: 5 };
    let buffer: Vec<Color> = Vec::new();
    let result = color_adjacencies(&buffer, dims, &offsets_4());
    assert_eq!(result.len(), 0);
}

#[test]
fn offsets_are_downward_and_rightward() {
    let four = offsets_4();
    assert_eq!(four, vec![
        Offset { d_row: 1, d_column: 0 },
        Offset { d_row: 0, d_column: 1 },
    ]);
    let eight = offsets_8();
    assert_eq!(eight, vec![
        Offset { d_row: 1, d_column: 0 },
        Offset { d_row: 0, d_column: 1 },
        Offset { d_row: 1, d_column: -1 },
        Offset { d_row: 1, d_column: 1 },
    ]);
}
