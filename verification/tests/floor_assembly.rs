use floorcast::errors::ProtocolError;
use floorcast::floor::{decode_cells, Floor, FloorConfig, FloorModule, SerialFloorMessanger};
use floorcast::wire::format_frame;

fn counting_line() -> String {
    let mut s = String::new();
    for v in 1..=36 {
        if v > 1 {
            s.push(',');
        }
        s.push_str(&v.to_string());
    }
    s.push('\n');
    s
}

#[test]
fn decode_cells_identity_places_row_major() {
    let line = counting_line();
    let grid = decode_cells(line.as_bytes(), 0).unwrap();
    assert_eq!(grid[0], vec![1, 2, 3, 4, 5, 6]);
    assert_eq!(grid[1], vec![7, 8, 9, 10, 11, 12]);
    assert_eq!(grid[5], vec![31, 32, 33, 34, 35, 36]);
}

#[test]
fn decode_cells_rotation_reverses_both_axes() {
    let line = counting_line();
    let grid = decode_cells(line.as_bytes(), 1).unwrap();
    assert_eq!(grid[0], vec![36, 35, 34, 33, 32, 31]);
    assert_eq!(grid[5], vec![6, 5, 4, 3, 2, 1]);
}

#[test]
fn decode_cells_accepts_negative_values() {
    let mut s = String::from("-1");
    for _ in 1..36 {
        s.push_str(",-1");
    }
    let grid = decode_cells(s.as_bytes(), 0).unwrap();
    assert_eq!(grid[3][3], -1);
}

#[test]
fn decode_cells_rejects_wrong_token_count() {
    let short = "1,2,3";
    assert_eq!(
        decode_cells(short.as_bytes(), 0),
        Err(ProtocolError::MalformedCells)
    );
    let long = format!("{},37", counting_line().trim_end());
    assert_eq!(
        decode_cells(long.as_bytes(), 0),
        Err(ProtocolError::MalformedCells)
    );
}

#[test]
fn decode_cells_rejects_non_numeric_token() {
    let line = counting_line().replace("17", "x");
    assert_eq!(
        decode_cells(line.as_bytes(), 0),
        Err(ProtocolError::MalformedCells)
    );
}

#[test]
fn decode_cells_rejects_out_of_range_token() {
    let line = counting_line().replace("36", "2147483648");
    assert_eq!(
        decode_cells(line.as_bytes(), 0),
        Err(ProtocolError::MalformedCells)
    );
}

#[test]
fn module_read_is_latest_wins() {
    let mut m = FloorModule::new(String::from("/dev/ttyUSB0"), 0);
    assert!(!m.data_available());
    assert_eq!(m.read(), None);
    m.push_line(String::from("old"));
    m.push_line(String::from("new"));
    assert!(m.data_available());
    assert_eq!(m.read(), Some(String::from("new")));
    assert!(!m.data_available());
    assert_eq!(m.read(), None);
}

fn one_by_two_config() -> FloorConfig {
    FloorConfig {
        module_layout: vec![vec![String::from("portA"), String::from("portB")]],
        module_direction: vec![vec![0, 1]],
    }
}

#[test]
fn config_shape_is_checked() {
    assert!(one_by_two_config().is_well_formed());
    let empty = FloorConfig {
        module_layout: vec![],
        module_direction: vec![],
    };
    assert!(!empty.is_well_formed());
    let ragged = FloorConfig {
        module_layout: vec![
            vec![String::from("a"), String::from("b")],
            vec![String::from("c")],
        ],
        module_direction: vec![vec![0, 0], vec![0]],
    };
    assert!(!ragged.is_well_formed());
    let missing_direction = FloorConfig {
        module_layout: vec![vec![String::from("a")]],
        module_direction: vec![],
    };
    assert!(!missing_direction.is_well_formed());
}

#[test]
fn one_by_two_floor_stitches_rotated_module() {
    let config = one_by_two_config();
    assert!(config.is_well_formed());
    let mut floor = Floor::new(&config);
    assert!(!floor.all_modules_available());
    floor.push_line(0, 0, counting_line());
    assert!(!floor.all_modules_available());
    floor.push_line(0, 1, counting_line());
    assert!(floor.all_modules_available());

    assert_eq!(floor.cycle(), Ok(()));
    assert!(floor.data_available());
    let matrix = floor.read().unwrap();
    assert!(!floor.data_available());

    assert_eq!(matrix.len(), 6);
    for row in &matrix {
        assert_eq!(row.len(), 12);
    }
    assert_eq!(
        matrix[0],
        vec![1, 2, 3, 4, 5, 6, 36, 35, 34, 33, 32, 31]
    );
    assert_eq!(
        matrix[5],
        vec![31, 32, 33, 34, 35, 36, 6, 5, 4, 3, 2, 1]
    );
    for r in 0..6 {
        for c in 0..6 {
            assert_eq!(matrix[r][c], (6 * r + c + 1) as i32);
            assert_eq!(matrix[r][6 + c], (36 - 6 * r - c) as i32);
        }
    }
}

#[test]
fn cycle_rejects_malformed_line_and_queues_nothing() {
    let config = one_by_two_config();
    let mut floor = Floor::new(&config);
    floor.push_line(0, 0, counting_line());
    floor.push_line(0, 1, String::from("not,a,grid\n"));
    assert!(floor.all_modules_available());
    assert_eq!(floor.cycle(), Err(ProtocolError::MalformedCells));
    assert!(!floor.data_available());
    assert!(!floor.all_modules_available());
}

#[test]
fn cycle_consumes_only_newest_lines() {
    let config = one_by_two_config();
    let mut floor = Floor::new(&config);
    floor.push_line(0, 0, String::from("stale,line\n"));
    floor.push_line(0, 0, counting_line());
    floor.push_line(0, 1, counting_line());
    assert_eq!(floor.cycle(), Ok(()));
    let matrix = floor.read().unwrap();
    assert_eq!(matrix[0][0], 1);
}

#[test]
fn stitched_frame_serializes_to_wire_format() {
    let config = FloorConfig {
        module_layout: vec![vec![String::from("only")]],
        module_direction: vec![vec![0]],
    };
    let mut floor = Floor::new(&config);
    floor.push_line(0, 0, counting_line());
    assert_eq!(floor.cycle(), Ok(()));
    let matrix = floor.read().unwrap();
    let frame = format_frame(1000, &matrix);
    assert_eq!(
        frame,
        "1000:1,2,3,4,5,6;7,8,9,10,11,12;13,14,15,16,17,18;\
         19,20,21,22,23,24;25,26,27,28,29,30;31,32,33,34,35,36"
    );
}

#[test]
fn serial_messanger_keeps_its_config_path() {
    let m = SerialFloorMessanger::new(String::from("layout.json"));
    assert_eq!(m.filename, "layout.json");
}
