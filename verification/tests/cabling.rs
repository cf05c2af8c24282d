use puzzle_solvers::cabling::{
    answers, assign_devices_to_coordinates_on_side, find_coordinates_on_sides, read_tasks, Device,
    Task, TaskHeader,
};

fn device(y: i16, x: i16, c: &str) -> Device {
    Device { y, x, c: c.to_string() }
}

fn places(devices: &[Device]) -> Vec<(i16, i16, String)> {
    devices.iter().map(|d| (d.y, d.x, d.c.clone())).collect()
}

fn task(h: i16, w: i16, devices: Vec<Device>) -> Task {
    Task { task_header: TaskHeader { h, w, n: devices.len() as i32 }, devices }
}

fn lines(text: &[&str]) -> Vec<String> {
    text.iter().map(|l| l.to_string()).collect()
}

#[test]
fn walk_along_the_walls() {
    assert_eq!(
        find_coordinates_on_sides(2, 3),
        vec![(0, 0), (0, 1), (0, 2), (0, 3), (1, 3), (2, 3), (2, 2), (2, 1), (2, 0), (1, 0)]
    );
    assert_eq!(find_coordinates_on_sides(1, 1), vec![(0, 0), (0, 1), (1, 1), (1, 0)]);
}

#[test]
fn walk_has_each_point_of_the_walls_once() {
    for (h, w) in [(1i16, 1i16), (3, 5), (10, 2), (40, 40)] {
        let walk = find_coordinates_on_sides(h, w);
        assert_eq!(walk.len(), 2 * (h as usize + w as usize));
        let mut sorted = walk.clone();
        sorted.sort();
        sorted.dedup();
        assert_eq!(sorted.len(), walk.len());
        for (y, x) in walk {
            assert!(y == 0 || y == h || x == 0 || x == w);
            assert!(0 <= y && y <= h && 0 <= x && x <= w);
        }
    }
}

#[test]
fn walk_in_a_room_without_area() {
    assert_eq!(find_coordinates_on_sides(0, 0), vec![]);
    assert_eq!(find_coordinates_on_sides(1, 0), vec![(0, 0), (1, 0)]);
    assert_eq!(find_coordinates_on_sides(0, 2), vec![(0, 0), (0, 1), (0, 2), (0, 1)]);
    assert_eq!(
        find_coordinates_on_sides(-1, 2),
        vec![(0, 0), (0, 1), (0, 2), (-1, 2), (-1, 1)]
    );
    assert_eq!(find_coordinates_on_sides(-1, -1), vec![]);
    assert_eq!(find_coordinates_on_sides(i16::MAX, 0).len(), 2 * i16::MAX as usize);
}

#[test]
fn devices_in_the_order_of_the_points() {
    let devices =
        vec![device(1, 0, "a"), device(0, 0, "b"), device(5, 5, "c"), device(1, 0, "d")];
    let order = assign_devices_to_coordinates_on_side(vec![(0, 0), (1, 0), (2, 0)], &devices);
    assert_eq!(
        places(&order),
        vec![(0, 0, "b".to_string()), (1, 0, "a".to_string()), (1, 0, "d".to_string())]
    );
    let twice = assign_devices_to_coordinates_on_side(vec![(0, 0), (0, 0)], &devices);
    assert_eq!(places(&twice), vec![(0, 0, "b".to_string()), (0, 0, "b".to_string())]);
    assert_eq!(assign_devices_to_coordinates_on_side(vec![], &devices).len(), 0);
}

#[test]
fn nested_cables_can_be_laid() {
    let t = task(
        2,
        2,
        vec![device(0, 0, "a"), device(0, 1, "b"), device(0, 2, "b"), device(1, 2, "a")],
    );
    assert_eq!(t.solve(), "pujde to");
}

#[test]
fn crossing_cables_cannot_be_laid() {
    let t = task(
        2,
        2,
        vec![device(0, 0, "a"), device(0, 1, "b"), device(0, 2, "a"), device(1, 2, "b")],
    );
    assert_eq!(t.solve(), "ajajaj");
}

#[test]
fn the_order_of_the_devices_in_the_list_does_not_count() {
    let t = task(
        3,
        3,
        vec![device(3, 1, "x"), device(0, 2, "y"), device(1, 0, "x"), device(1, 3, "y")],
    );
    // along the walls: y (0,2), y (1,3), x (3,1), x (1,0)
    assert_eq!(t.solve(), "pujde to");
}

#[test]
fn a_room_without_devices_and_a_single_device() {
    assert_eq!(task(2, 2, vec![]).solve(), "pujde to");
    assert_eq!(task(2, 2, vec![device(0, 1, "a")]).solve(), "ajajaj");
    // a device that is not on a wall is not met
    assert_eq!(task(2, 2, vec![device(1, 1, "a")]).solve(), "pujde to");
}

#[test]
fn header_lines() {
    let h = TaskHeader::new("5 7 3");
    assert_eq!((h.h, h.w, h.n), (5, 7, 3));
    let h = TaskHeader::new(" 10000\t1  40000 ");
    assert_eq!((h.h, h.w, h.n), (10000, 1, 40000));
    let h = TaskHeader::parse("+5 7 3").unwrap();
    assert_eq!((h.h, h.w, h.n), (5, 7, 3));
}

#[test]
fn lines_that_are_no_header() {
    for line in ["", "5 7", "5 7 3 1", "0 7 3", "5 0 3", "5 7 0", "10001 7 3", "5 10001 3",
        "5 7 40001", "a 7 3", "5 7 x", "-5 7 3", "40000 7 3"]
    {
        assert!(TaskHeader::parse(line).is_none(), "{:?}", line);
    }
}

#[test]
fn device_lines() {
    let room = TaskHeader { h: 5, w: 7, n: 1 };
    let d = Device::new(&room, "0 7 red");
    assert_eq!((d.y, d.x, d.c.as_str()), (0, 7, "red"));
    let d = Device::new(&room, "  5   0   \u{17e}lut\u{e1} ");
    assert_eq!((d.y, d.x, d.c.as_str()), (5, 0, "\u{17e}lut\u{e1}"));
    let d = Device::new(&room, "");
    assert_eq!((d.y, d.x, d.c.as_str()), (0, 0, ""));
    let d = Device::new(&room, "3");
    assert_eq!((d.y, d.x, d.c.as_str()), (3, 0, ""));
    let d = Device::new(&room, "3 4");
    assert_eq!((d.y, d.x, d.c.as_str()), (3, 4, ""));
}

#[test]
fn lines_that_are_no_device() {
    let room = TaskHeader { h: 5, w: 7, n: 1 };
    for line in ["6 0 red", "0 8 red", "-1 2 x", "1 -2 x", "a 2 x", "1 b x", "1 2 red blue",
        "99999 1 x"]
    {
        assert!(Device::parse(&room, line).is_none(), "{:?}", line);
    }
}

#[test]
fn tasks_are_read_one_after_the_other() {
    let input = lines(&["2", "2 2 2", "0 0 a", "0 1 a", "1 1 1", "1 1 b"]);
    let tasks = read_tasks(&input).unwrap();
    assert_eq!(tasks.len(), 2);
    assert_eq!((tasks[0].task_header.h, tasks[0].task_header.n), (2, 2));
    assert_eq!(places(&tasks[0].devices), vec![(0, 0, "a".to_string()), (0, 1, "a".to_string())]);
    assert_eq!(places(&tasks[1].devices), vec![(1, 1, "b".to_string())]);
    assert_eq!(answers(&tasks), vec!["pujde to".to_string(), "ajajaj".to_string()]);
}

#[test]
fn a_task_that_ends_early_is_left_out() {
    let input = lines(&["1", "2 2 2", "0 0 a"]);
    assert_eq!(read_tasks(&input).unwrap().len(), 0);
    assert_eq!(read_tasks(&lines(&["anything"])).unwrap().len(), 0);
    assert_eq!(read_tasks(&vec![]).unwrap().len(), 0);
}

#[test]
fn lines_out_of_place_end_the_reading() {
    assert!(read_tasks(&lines(&["1", "x"])).is_none());
    assert!(read_tasks(&lines(&["1", "2 2 1", "3 0 a"])).is_none());
    assert!(read_tasks(&lines(&["1", "2 2 1", "0 0 a", ""])).is_none());
}
