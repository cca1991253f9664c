use rust_thumbnails::{resolve_capture_region, MonitorDescriptor, Rect, RegionError};

fn monitor(id: u32, x: i32, y: i32, width: u32, height: u32) -> MonitorDescriptor {
    MonitorDescriptor { id, x, y, width, height }
}

fn side_by_side() -> Vec<MonitorDescriptor> {
    vec![monitor(1, 0, 0, 1920, 1080), monitor(2, 1920, 0, 1920, 1080)]
}

#[test]
fn request_inside_first_monitor() {
    let req = Rect { x: 100, y: 100, width: 500, height: 500 };
    let reg = resolve_capture_region(&req, &side_by_side()).unwrap();
    assert_eq!(reg.index, 0);
    assert_eq!(reg.monitor.id, 1);
    assert_eq!((reg.rel_x, reg.rel_y), (100, 100));
    assert_eq!((reg.width, reg.height), (500, 500));
}

#[test]
fn straddling_request_takes_larger_overlap() {
    let req = Rect { x: 1800, y: 0, width: 400, height: 400 };
    let reg = resolve_capture_region(&req, &side_by_side()).unwrap();
    assert_eq!(reg.index, 1);
    assert_eq!(reg.monitor.id, 2);
    assert_eq!((reg.rel_x, reg.rel_y), (0, 0));
    assert_eq!((reg.width, reg.height), (400, 400));
}

#[test]
fn request_outside_every_monitor_fails() {
    let req = Rect { x: -5000, y: -5000, width: 10, height: 10 };
    assert_eq!(resolve_capture_region(&req, &side_by_side()), Err(RegionError::NoMonitorFound));
}

#[test]
fn request_clamped_to_monitor_bounds() {
    let req = Rect { x: 700, y: 500, width: 500, height: 500 };
    let ms = vec![monitor(7, 0, 0, 800, 600)];
    let reg = resolve_capture_region(&req, &ms).unwrap();
    assert_eq!((reg.rel_x, reg.rel_y), (700, 500));
    assert_eq!((reg.width, reg.height), (100, 100));
}

#[test]
fn equal_overlap_keeps_first_listed() {
    let req = Rect { x: 1720, y: 0, width: 400, height: 100 };
    let reg = resolve_capture_region(&req, &side_by_side()).unwrap();
    assert_eq!(reg.index, 0);
    assert_eq!((reg.rel_x, reg.width), (1720, 200));
}

#[test]
fn empty_request_falls_back_to_containing_monitor() {
    let req = Rect { x: 2000, y: 10, width: 0, height: 0 };
    let reg = resolve_capture_region(&req, &side_by_side()).unwrap();
    assert_eq!(reg.index, 1);
    assert_eq!((reg.rel_x, reg.rel_y), (80, 10));
    assert_eq!((reg.width, reg.height), (0, 0));
}

#[test]
fn empty_request_outside_fails() {
    let req = Rect { x: 4000, y: 10, width: 0, height: 5 };
    assert_eq!(resolve_capture_region(&req, &side_by_side()), Err(RegionError::NoMonitorFound));
}

#[test]
fn no_monitors_fails() {
    let req = Rect { x: 0, y: 0, width: 10, height: 10 };
    assert_eq!(resolve_capture_region(&req, &Vec::new()), Err(RegionError::NoMonitorFound));
}

#[test]
fn negative_origin_monitor_and_pull_to_edge() {
    let ms = vec![monitor(3, -1280, -200, 1280, 1024), monitor(4, 0, 0, 1920, 1080)];
    let req = Rect { x: -1400, y: -300, width: 300, height: 300 };
    let reg = resolve_capture_region(&req, &ms).unwrap();
    assert_eq!(reg.index, 0);
    assert_eq!((reg.rel_x, reg.rel_y), (0, 0));
    assert_eq!((reg.width, reg.height), (300, 300));
}
