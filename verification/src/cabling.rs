//! Cables between devices on the walls of a rectangular room: the devices
//! are met in the order of a walk along the walls, and cables of one colour
//! can be laid without a crossing exactly if the colours pair up like
//! brackets.

use crate::text::{characters, fields, number_within, parse_number, split_fields};
use vstd::prelude::*;
use vstd::string::StrSliceExecFns;

verus! {

/// Size of the room and number of devices.
#[derive(Clone, Copy, Debug)]
pub struct TaskHeader {
    pub h: i16,
    pub w: i16,
    pub n: i32,
}

/// A device at a point of the wall, with the colour of its cable.
#[derive(Debug)]
pub struct Device {
    pub y: i16,
    pub x: i16,
    pub c: String,
}

/// One room with its devices.
#[derive(Debug)]
pub struct Task {
    pub task_header: TaskHeader,
    pub devices: Vec<Device>,
}

impl Clone for Task {
    fn clone(&self) -> (r: Self)
        ensures
            r.task_header == self.task_header,
            r.devices@ == self.devices@,
    {
        let mut devices: Vec<Device> = Vec::new();
        let mut i: usize = 0;
        while i < self.devices.len()
            invariant
                i <= self.devices.len(),
                devices@ == self.devices@.take(i as int),
            decreases self.devices.len() - i,
        {
            devices.push(self.devices[i].clone());
            proof {
                assert(devices@ =~= self.devices@.take(i + 1));
            }
            i += 1;
        }
        proof {
            assert(self.devices@.take(self.devices.len() as int) =~= self.devices@);
        }
        Task { task_header: self.task_header, devices }
    }
}

impl Clone for Device {
    fn clone(&self) -> (r: Self)
        ensures
            r == *self,
    {
        Device { y: self.y, x: self.x, c: self.c.clone() }
    }
}

/// The points `(y, x)` of the four walls, one wall after the other,
/// starting at `(0, 0)`: the top wall from left to right, the right wall
/// downwards, the bottom wall from right to left and the left wall upwards.
/// Each wall has both of its corners.
pub open spec fn walls(h: int, w: int) -> Seq<(i16, i16)> {
    let across: nat = if w >= 0 { (w + 1) as nat } else { 0 };
    let down: nat = if h >= 0 { (h + 1) as nat } else { 0 };
    Seq::new(across, |i: int| (0i16, i as i16)) + Seq::new(down, |i: int| (i as i16, w as i16))
        + Seq::new(across, |i: int| (h as i16, (w - i) as i16)) + Seq::new(
        down,
        |i: int| ((h - i) as i16, 0i16),
    )
}

/// The list without a point that repeats the point before it.
pub open spec fn without_repeats(s: Seq<(i16, i16)>) -> Seq<(i16, i16)>
    decreases s.len(),
{
    if s.len() == 0 {
        Seq::empty()
    } else if s.len() >= 2 && s.last() == s[s.len() - 2] {
        without_repeats(s.drop_last())
    } else {
        without_repeats(s.drop_last()).push(s.last())
    }
}

/// The walk along the walls: the points of [`walls`] without repeated
/// corners, and without the return to the start.
pub open spec fn coordinates_on_sides(h: int, w: int) -> Seq<(i16, i16)> {
    let once = without_repeats(walls(h, w));
    if once.len() == 0 {
        once
    } else {
        once.drop_last()
    }
}

/// The devices at the point `(y, x)`, in their order.
pub open spec fn devices_at(devices: Seq<Device>, y: i16, x: i16) -> Seq<Device>
    decreases devices.len(),
{
    if devices.len() == 0 {
        Seq::empty()
    } else if devices.last().y == y && devices.last().x == x {
        devices_at(devices.drop_last(), y, x).push(devices.last())
    } else {
        devices_at(devices.drop_last(), y, x)
    }
}

/// The devices in the order of the points `coords`: for each point the
/// devices that stand there.
pub open spec fn devices_along(coords: Seq<(i16, i16)>, devices: Seq<Device>) -> Seq<Device>
    decreases coords.len(),
{
    if coords.len() == 0 {
        Seq::empty()
    } else {
        devices_along(coords.drop_last(), devices) + devices_at(
            devices,
            coords.last().0,
            coords.last().1,
        )
    }
}

/// The colours of the devices.
pub open spec fn colours(devices: Seq<Device>) -> Seq<Seq<char>> {
    devices.map_values(|d: Device| d.c@)
}

/// What is left of a list of colours after each colour that follows an
/// equal one has gone together with it, from left to right.
pub open spec fn unmatched(colours: Seq<Seq<char>>) -> Seq<Seq<char>>
    decreases colours.len(),
{
    if colours.len() == 0 {
        Seq::empty()
    } else {
        let open = unmatched(colours.drop_last());
        if open.len() > 0 && open.last() == colours.last() {
            open.drop_last()
        } else {
            open.push(colours.last())
        }
    }
}

impl Task {
    /// Whether the cables can be laid without a crossing: the colours of the
    /// devices, in the order of the walk along the walls, pair up.
    pub open spec fn routable(self) -> bool {
        unmatched(
            colours(
                devices_along(
                    coordinates_on_sides(self.task_header.h as int, self.task_header.w as int),
                    self.devices@,
                ),
            ),
        ).len() == 0
    }

    /// Answers `pujde to` where the cables can be laid without a crossing
    /// and `ajajaj` where they cannot.
    pub fn solve(&self) -> (answer: String)
        ensures
            answer@ == (if self.routable() {
                "pujde to"@
            } else {
                "ajajaj"@
            }),
    {
        let devices_in_correct_order = assign_devices_to_coordinates_on_side(
            find_coordinates_on_sides(self.task_header.h, self.task_header.w),
            &self.devices,
        );

        let mut device_route_buffer: Vec<Device> = Vec::new();
        let mut i: usize = 0;
        proof {
            assert(colours(device_route_buffer@) =~= unmatched(
                colours(devices_in_correct_order@.take(0)),
            ));
        }
        while i < devices_in_correct_order.len()
            invariant
                i <= devices_in_correct_order.len(),
                colours(device_route_buffer@) == unmatched(
                    colours(devices_in_correct_order@.take(i as int)),
                ),
            decreases devices_in_correct_order.len() - i,
        {
            let device = &devices_in_correct_order[i];
            let ghost before = colours(device_route_buffer@);
            proof {
                let longer = colours(devices_in_correct_order@.take(i + 1));
                assert(longer.drop_last() =~= colours(devices_in_correct_order@.take(i as int)));
                assert(longer.last() == device.c@);
            }
            if device_route_buffer.len() == 0 {
                device_route_buffer.push(device.clone());
                proof {
                    assert(colours(device_route_buffer@) =~= before.push(device.c@));
                }
            } else {
                let last = device_route_buffer.len() - 1;
                assert(before.last() == device_route_buffer@[last as int].c@);
                if device_route_buffer[last].c == device.c {
                    device_route_buffer.pop();
                    proof {
                        assert(colours(device_route_buffer@) =~= before.drop_last());
                    }
                } else {
                    device_route_buffer.push(device.clone());
                    proof {
                        assert(colours(device_route_buffer@) =~= before.push(device.c@));
                    }
                }
            }
            i += 1;
        }
        proof {
            assert(devices_in_correct_order@.take(devices_in_correct_order.len() as int)
                =~= devices_in_correct_order@);
        }

        if device_route_buffer.is_empty() {
            return "pujde to".to_owned();
        }
        "ajajaj".to_owned()
    }
}

/// The devices in the order of the points `coords_on_side`: for each point
/// the devices that stand there, in the order of `devices`.
pub fn assign_devices_to_coordinates_on_side(
    coords_on_side: Vec<(i16, i16)>,
    devices: &Vec<Device>,
) -> (devices_in_order: Vec<Device>)
    ensures
        devices_in_order@ == devices_along(coords_on_side@, devices@),
{
    let mut devices_in_order: Vec<Device> = Vec::new();

    let mut p: usize = 0;
    while p < coords_on_side.len()
        invariant
            p <= coords_on_side.len(),
            devices_in_order@ == devices_along(coords_on_side@.take(p as int), devices@),
        decreases coords_on_side.len() - p,
    {
        let y = coords_on_side[p].0;
        let x = coords_on_side[p].1;
        let ghost start = devices_in_order@;
        proof {
            assert(coords_on_side@.take(p + 1).drop_last() =~= coords_on_side@.take(p as int));
            assert(start + devices_at(devices@.take(0), y, x) =~= start);
        }
        let mut d: usize = 0;
        while d < devices.len()
            invariant
                d <= devices.len(),
                devices_in_order@ == start + devices_at(devices@.take(d as int), y, x),
            decreases devices.len() - d,
        {
            proof {
                assert(devices@.take(d + 1).drop_last() =~= devices@.take(d as int));
            }
            let device = &devices[d];
            if device.y == y && device.x == x {
                devices_in_order.push(device.clone());
                proof {
                    assert(devices_in_order@ =~= start + devices_at(devices@.take(d + 1), y, x));
                }
            }
            d += 1;
        }
        proof {
            assert(devices@.take(devices.len() as int) =~= devices@);
        }
        p += 1;
    }
    proof {
        assert(coords_on_side@.take(coords_on_side.len() as int) =~= coords_on_side@);
    }

    devices_in_order
}

fn remove_repeats(points: &Vec<(i16, i16)>) -> (once: Vec<(i16, i16)>)
    ensures
        once@ == without_repeats(points@),
{
    let mut once: Vec<(i16, i16)> = Vec::new();
    let mut i: usize = 0;
    while i < points.len()
        invariant
            i <= points.len(),
            once@ == without_repeats(points@.take(i as int)),
        decreases points.len() - i,
    {
        proof {
            assert(points@.take(i + 1).drop_last() =~= points@.take(i as int));
        }
        if i > 0 && points[i].0 == points[i - 1].0 && points[i].1 == points[i - 1].1 {
        } else {
            once.push(points[i]);
        }
        i += 1;
    }
    proof {
        assert(points@.take(points.len() as int) =~= points@);
    }
    once
}

/// The points `(y, x)` of the walls of a room of height `h` and width `w` in
/// the order of a walk along the walls: from `(0, 0)` along the top wall,
/// down the right wall, back along the bottom wall and up the left wall. No
/// corner is repeated, and the walk does not return to its start.
pub fn find_coordinates_on_sides(h: i16, w: i16) -> (coordinates: Vec<(i16, i16)>)
    ensures
        coordinates@ == coordinates_on_sides(h as int, w as int),
{
    let mut coordinates: Vec<(i16, i16)> = Vec::new();
    let ghost across: nat = if w >= 0 { (w + 1) as nat } else { 0 };
    let ghost down: nat = if h >= 0 { (h + 1) as nat } else { 0 };

    // TOP SIDE
    let mut i: i32 = 0;
    while i <= w as i32
        invariant
            0 <= i <= across,
            across == (if w >= 0 { (w + 1) as nat } else { 0 }),
            coordinates@ == Seq::new(i as nat, |k: int| (0i16, k as i16)),
        decreases w - i + 1,
    {
        coordinates.push((0, i as i16));
        i += 1;
        proof {
            assert(coordinates@ =~= Seq::new(i as nat, |k: int| (0i16, k as i16)));
        }
    }
    let ghost top = coordinates@;

    // RIGHT SIDE
    let mut i: i32 = 0;
    while i <= h as i32
        invariant
            0 <= i <= down,
            down == (if h >= 0 { (h + 1) as nat } else { 0 }),
            coordinates@ == top + Seq::new(i as nat, |k: int| (k as i16, w)),
        decreases h - i + 1,
    {
        coordinates.push((i as i16, w));
        i += 1;
        proof {
            assert(coordinates@ =~= top + Seq::new(i as nat, |k: int| (k as i16, w)));
        }
    }
    let ghost right = coordinates@;

    // BOTTOM SIDE
    let mut i: i32 = w as i32;
    proof {
        assert(coordinates@ =~= right + Seq::new(0, |k: int| (h, (w - k) as i16)));
    }
    while i >= 0
        invariant
            i <= w,
            -1 <= i || i == w,
            coordinates@ == right + Seq::new((w - i) as nat, |k: int| (h, (w - k) as i16)),
        decreases i + 1,
    {
        coordinates.push((h, i as i16));
        i -= 1;
        proof {
            assert(coordinates@ =~= right + Seq::new((w - i) as nat, |k: int| (h, (w - k) as i16)));
        }
    }
    let ghost bottom = coordinates@;

    // LEFT SIDE
    let mut i: i32 = h as i32;
    proof {
        assert(coordinates@ =~= bottom + Seq::new(0, |k: int| ((h - k) as i16, 0i16)));
    }
    while i >= 0
        invariant
            i <= h,
            -1 <= i || i == h,
            coordinates@ == bottom + Seq::new((h - i) as nat, |k: int| ((h - k) as i16, 0i16)),
        decreases i + 1,
    {
        coordinates.push((i as i16, 0));
        i -= 1;
        proof {
            assert(coordinates@ =~= bottom + Seq::new(
                (h - i) as nat,
                |k: int| ((h - k) as i16, 0i16),
            ));
        }
    }
    proof {
        assert(coordinates@ =~= walls(h as int, w as int));
    }

    let mut coordinates = remove_repeats(&coordinates);
    coordinates.pop();
    coordinates
}

/// Mathematical model of a [`Device`]: its point and the characters of its
/// colour.
pub struct DeviceView {
    pub y: i16,
    pub x: i16,
    pub c: Seq<char>,
}

/// Mathematical model of a [`Task`].
pub struct TaskView {
    pub task_header: TaskHeader,
    pub devices: Seq<DeviceView>,
}

impl View for Device {
    type V = DeviceView;

    open spec fn view(&self) -> DeviceView {
        DeviceView { y: self.y, x: self.x, c: self.c@ }
    }
}

impl View for Task {
    type V = TaskView;

    open spec fn view(&self) -> TaskView {
        TaskView {
            task_header: self.task_header,
            devices: self.devices@.map_values(|d: Device| d@),
        }
    }
}

impl TaskHeader {
    /// What a header line says: three fields, the height and the width of
    /// the room from 1 to 10000 and the number of devices from 1 to 40000.
    /// `None` for every other line.
    pub open spec fn parsed(line: Seq<char>) -> Option<TaskHeader> {
        let f = fields(line);
        if f.len() != 3 {
            None
        } else {
            match (
                number_within(f[0], 1, 10000),
                number_within(f[1], 1, 10000),
                number_within(f[2], 1, 40000),
            ) {
                (Some(h), Some(w), Some(n)) => Some(
                    TaskHeader { h: h as i16, w: w as i16, n: n as i32 },
                ),
                _ => None,
            }
        }
    }

    /// Reads a header line, see [`TaskHeader::parsed`].
    pub fn parse(line: &str) -> (r: Option<TaskHeader>)
        ensures
            r == Self::parsed(line@),
    {
        let chars = characters(line);
        let bounds = split_fields(&chars);
        proof {
            assert(fields(line@).len() == bounds.len());
        }
        if bounds.len() != 3 {
            return None;
        }
        proof {
            assert forall|k: int| 0 <= k < 3 implies #[trigger] fields(line@)[k] == chars@.subrange(
                bounds@[k].0 as int,
                bounds@[k].1 as int,
            ) by {
                assert(crate::text::bound_views(bounds@)[k] == (
                    bounds@[k].0 as int,
                    bounds@[k].1 as int,
                ));
            }
        }
        let h = parse_number(&chars, bounds[0].0, bounds[0].1, i16::MIN as i64, i16::MAX as i64);
        let w = parse_number(&chars, bounds[1].0, bounds[1].1, i16::MIN as i64, i16::MAX as i64);
        let n = parse_number(&chars, bounds[2].0, bounds[2].1, i32::MIN as i64, i32::MAX as i64);
        match (h, w, n) {
            (Some(h), Some(w), Some(n)) => {
                if 1 <= h && h <= 10000 && 1 <= w && w <= 10000 && 1 <= n && n <= 40000 {
                    Some(TaskHeader { h: h as i16, w: w as i16, n: n as i32 })
                } else {
                    None
                }
            },
            _ => None,
        }
    }

    /// The header that the line holds.
    pub fn new(line: &str) -> (r: Self)
        requires
            Self::parsed(line@) is Some,
        ensures
            Some(r) == Self::parsed(line@),
    {
        match Self::parse(line) {
            Some(header) => header,
            None => {
                proof {
                    assert(false);
                }
                TaskHeader { h: 0, w: 0, n: 0 }
            },
        }
    }
}

impl Device {
    /// What a device line says in the room of `task`: at most three fields,
    /// the row from 0 to the height, the column from 0 to the width, and
    /// the colour. A field that is missing counts as 0, or as the empty
    /// colour. `None` for every other line.
    pub open spec fn parsed(task: TaskHeader, line: Seq<char>) -> Option<DeviceView> {
        let f = fields(line);
        let y = if f.len() >= 1 {
            number_within(f[0], i16::MIN as int, i16::MAX as int)
        } else {
            Some(0int)
        };
        let x = if f.len() >= 2 {
            number_within(f[1], i16::MIN as int, i16::MAX as int)
        } else {
            Some(0int)
        };
        let c = if f.len() >= 3 {
            f[2]
        } else {
            Seq::empty()
        };
        if f.len() > 3 {
            None
        } else {
            match (y, x) {
                (Some(y), Some(x)) => if 0 <= y <= task.h && 0 <= x <= task.w {
                    Some(DeviceView { y: y as i16, x: x as i16, c })
                } else {
                    None
                },
                _ => None,
            }
        }
    }

    /// Reads a device line, see [`Device::parsed`].
    pub fn parse(task: &TaskHeader, line: &str) -> (r: Option<Device>)
        ensures
            match r {
                Some(device) => Self::parsed(*task, line@) == Some(device@),
                None => Self::parsed(*task, line@) is None,
            },
    {
        let chars = characters(line);
        let bounds = split_fields(&chars);
        proof {
            assert(fields(line@).len() == bounds.len());
            assert forall|k: int| 0 <= k < bounds.len() implies #[trigger] fields(line@)[k]
                == chars@.subrange(bounds@[k].0 as int, bounds@[k].1 as int) by {
                assert(crate::text::bound_views(bounds@)[k] == (
                    bounds@[k].0 as int,
                    bounds@[k].1 as int,
                ));
            }
        }
        if bounds.len() > 3 {
            return None;
        }
        let y = if bounds.len() >= 1 {
            parse_number(&chars, bounds[0].0, bounds[0].1, i16::MIN as i64, i16::MAX as i64)
        } else {
            Some(0)
        };
        let x = if bounds.len() >= 2 {
            parse_number(&chars, bounds[1].0, bounds[1].1, i16::MIN as i64, i16::MAX as i64)
        } else {
            Some(0)
        };
        let c = if bounds.len() >= 3 {
            line.substring_char(bounds[2].0, bounds[2].1).to_owned()
        } else {
            String::new()
        };
        match (y, x) {
            (Some(y), Some(x)) => {
                if 0 <= y && y <= task.h as i64 && 0 <= x && x <= task.w as i64 {
                    Some(Device { y: y as i16, x: x as i16, c })
                } else {
                    None
                }
            },
            _ => None,
        }
    }

    /// The device that the line holds.
    pub fn new(task: &TaskHeader, line: &str) -> (r: Self)
        requires
            Self::parsed(*task, line@) is Some,
        ensures
            Some(r@) == Self::parsed(*task, line@),
    {
        match Self::parse(task, line) {
            Some(device) => device,
            None => {
                proof {
                    assert(false);
                }
                Device { y: 0, x: 0, c: String::new() }
            },
        }
    }
}

/// Where the reading of tasks stands: the tasks that are complete, the
/// task that is being read and the number of its devices that are still to
/// come.
pub struct Reading {
    pub tasks: Seq<TaskView>,
    pub current: TaskView,
    pub ports: int,
}

/// The reading after one more line: a header line where no device is to
/// come, else a device line of the current task, which is complete with its
/// last device. `None` where the line is not what is to come.
pub open spec fn read_line(state: Reading, line: Seq<char>) -> Option<Reading> {
    if state.ports == 0 {
        match TaskHeader::parsed(line) {
            Some(header) => Some(
                Reading {
                    tasks: state.tasks,
                    current: TaskView { task_header: header, devices: Seq::empty() },
                    ports: header.n as int,
                },
            ),
            None => None,
        }
    } else {
        match Device::parsed(state.current.task_header, line) {
            Some(device) => {
                let current = TaskView {
                    task_header: state.current.task_header,
                    devices: state.current.devices.push(device),
                };
                Some(
                    Reading {
                        tasks: if state.ports == 1 {
                            state.tasks.push(current)
                        } else {
                            state.tasks
                        },
                        current,
                        ports: state.ports - 1,
                    },
                )
            },
            None => None,
        }
    }
}

/// The reading after the lines from the second to the `k`-th; the first
/// line is passed over.
pub open spec fn read_lines(lines: Seq<Seq<char>>, k: nat) -> Option<Reading>
    decreases k,
{
    if k <= 1 {
        Some(
            Reading {
                tasks: Seq::empty(),
                current: TaskView {
                    task_header: TaskHeader { h: 0, w: 0, n: 0 },
                    devices: Seq::empty(),
                },
                ports: 0,
            },
        )
    } else {
        match read_lines(lines, (k - 1) as nat) {
            Some(state) => read_line(state, lines[k - 1]),
            None => None,
        }
    }
}

/// The texts of a list of lines.
pub open spec fn line_texts(lines: Seq<String>) -> Seq<Seq<char>> {
    lines.map_values(|l: String| l@)
}

/// The models of a list of tasks.
pub open spec fn task_views(tasks: Seq<Task>) -> Seq<TaskView> {
    tasks.map_values(|t: Task| t@)
}

/// Reads the tasks from the lines of the input: the first line is passed
/// over, then each task is a header line followed by as many device lines
/// as the header says. A task whose device lines end early is left out.
/// `None` where a line is not what is to come at its place.
pub fn read_tasks(lines: &Vec<String>) -> (r: Option<Vec<Task>>)
    ensures
        match r {
            Some(tasks) => read_lines(line_texts(lines@), lines.len() as nat) matches Some(state)
                && task_views(tasks@) == state.tasks,
            None => read_lines(line_texts(lines@), lines.len() as nat) is None,
        },
{
    let ghost texts = line_texts(lines@);
    let mut ports: i32 = 0;
    let mut tasks: Vec<Task> = Vec::new();
    let mut current_task: Task = Task {
        task_header: TaskHeader { h: 0, w: 0, n: 0 },
        devices: Vec::new(),
    };
    let mut index: usize = 0;
    proof {
        assert(task_views(tasks@) =~= Seq::<TaskView>::empty());
        assert(current_task@.devices =~= Seq::<DeviceView>::empty());
    }
    while index < lines.len()
        invariant
            index <= lines.len(),
            texts == line_texts(lines@),
            0 <= ports,
            read_lines(texts, index as nat) == Some(
                Reading { tasks: task_views(tasks@), current: current_task@, ports: ports as int },
            ),
        decreases lines.len() - index,
    {
        let line = &lines[index];
        assert(texts[index as int] == line@);
        if index == 0 {
            index += 1;
            continue ;
        }
        if ports == 0 {
            match TaskHeader::parse(line.as_str()) {
                Some(new_task_header) => {
                    current_task = Task { task_header: new_task_header, devices: Vec::new() };
                    ports = new_task_header.n;
                    proof {
                        assert(current_task@.devices =~= Seq::<DeviceView>::empty());
                    }
                },
                None => {
                    proof {
                        lemma_read_fails(texts, (index + 1) as nat, lines.len() as nat);
                    }
                    return None;
                },
            }
        } else {
            match Device::parse(&current_task.task_header, line.as_str()) {
                Some(device) => {
                    let ghost before = current_task@;
                    let ghost done = task_views(tasks@);
                    current_task.devices.push(device);
                    ports -= 1;
                    proof {
                        assert(current_task@.devices =~= before.devices.push(device@));
                    }
                    // save task
                    if ports == 0 {
                        tasks.push(current_task.clone());
                        proof {
                            let copy = tasks@[tasks.len() - 1];
                            assert(copy@.devices =~= current_task@.devices);
                            assert(task_views(tasks@) =~= done.push(current_task@));
                        }
                    }
                },
                None => {
                    proof {
                        lemma_read_fails(texts, (index + 1) as nat, lines.len() as nat);
                    }
                    return None;
                },
            }
        }
        index += 1;
    }
    Some(tasks)
}

/// A reading that has failed stays failed.
pub proof fn lemma_read_fails(lines: Seq<Seq<char>>, k: nat, n: nat)
    requires
        k <= n,
        read_lines(lines, k) is None,
    ensures
        read_lines(lines, n) is None,
    decreases n - k,
{
    if k < n {
        lemma_read_fails(lines, k, (n - 1) as nat);
    }
}

/// The answers to the tasks, in their order, see [`Task::solve`].
pub fn answers(tasks: &Vec<Task>) -> (r: Vec<String>)
    ensures
        r.len() == tasks.len(),
        forall|i: int|
            0 <= i < tasks.len() ==> (#[trigger] r@[i])@ == (if tasks@[i].routable() {
                "pujde to"@
            } else {
                "ajajaj"@
            }),
{
    let mut r: Vec<String> = Vec::new();
    let mut i: usize = 0;
    while i < tasks.len()
        invariant
            i <= tasks.len(),
            r.len() == i,
            forall|k: int|
                0 <= k < i ==> (#[trigger] r@[k])@ == (if tasks@[k].routable() {
                    "pujde to"@
                } else {
                    "ajajaj"@
                }),
        decreases tasks.len() - i,
    {
        r.push(tasks[i].solve());
        i += 1;
    }
    r
}

} // verus!
