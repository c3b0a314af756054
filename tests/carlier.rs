use proc_opt::carlier::carlier;
use proc_opt::jobs::{Job, JobList};

#[test]
fn test_carlier_ex1() {
    let mut js = JobList::new(vec![
        Job::new(592, 82, 321),
        Job::new(547, 18, 687),
        Job::new(284, 11, 219),
        Job::new(568, 46, 507),
        Job::new(189, 76, 604),
        Job::new(465, 52, 577),
        Job::new(234, 53, 732),
        Job::new(391, 49, 718),
        Job::new(205, 10, 64),
        Job::new(157, 29, 176),
        Job::new(505, 40, 637),
        Job::new(211, 21, 326),
        Job::new(518, 57, 645),
        Job::new(625, 15, 53),
        Job::new(500, 51, 66),
        Job::new(114, 1, 506),
        Job::new(454, 91, 167),
        Job::new(174, 75, 319),
        Job::new(340, 56, 480),
        Job::new(184, 61, 69),
    ]);
    let mut result: u32 = u32::MAX;
    carlier(&mut js, &mut result);
    assert_eq!(result, 1267)
}

#[test]
fn test_carlier_ex2() {
    let mut js = JobList::new(vec![
        Job::new(0, 27, 78),
        Job::new(140, 7, 67),
        Job::new(14, 36, 54),
        Job::new(133, 76, 5),
    ]);
    let mut result: u32 = u32::MAX;
    carlier(&mut js, &mut result);
    assert_eq!(result, 228)
}

#[test]
fn test_carlier_ex3() {
    let mut js = JobList::new(vec![
        Job::new(8, 37, 1828),
        Job::new(1533, 28, 881),
        Job::new(1818, 98, 450),
        Job::new(1100, 74, 1189),
        Job::new(272, 81, 1204),
        Job::new(985, 57, 781),
        Job::new(1325, 30, 417),
        Job::new(989, 48, 266),
        Job::new(1622, 93, 1322),
        Job::new(1322, 37, 1486),
        Job::new(1166, 74, 732),
        Job::new(374, 77, 148),
        Job::new(954, 42, 1643),
        Job::new(644, 55, 2),
        Job::new(160, 67, 608),
        Job::new(1233, 92, 1781),
        Job::new(499, 7, 383),
        Job::new(1407, 25, 991),
        Job::new(1632, 41, 1472),
        Job::new(678, 97, 1337),
        Job::new(696, 10, 1587),
        Job::new(1531, 35, 92),
        Job::new(952, 99, 131),
        Job::new(490, 90, 215),
        Job::new(1459, 62, 1036),
        Job::new(242, 18, 1327),
        Job::new(660, 33, 645),
        Job::new(1586, 10, 921),
        Job::new(961, 73, 1628),
        Job::new(1256, 69, 288),
        Job::new(1179, 52, 250),
        Job::new(201, 71, 1420),
        Job::new(232, 19, 606),
        Job::new(40, 87, 221),
        Job::new(1088, 18, 155),
        Job::new(1061, 78, 1786),
        Job::new(455, 63, 801),
        Job::new(1466, 77, 746),
        Job::new(73, 49, 1039),
        Job::new(1723, 53, 1396),
        Job::new(261, 34, 1366),
        Job::new(741, 40, 1381),
        Job::new(789, 47, 1242),
        Job::new(1806, 25, 1196),
        Job::new(269, 41, 136),
        Job::new(316, 35, 1019),
        Job::new(870, 51, 251),
        Job::new(854, 67, 1693),
        Job::new(824, 23, 499),
        Job::new(1305, 47, 1746),
    ]);
    let mut result: u32 = u32::MAX;
    carlier(&mut js, &mut result);
    assert_eq!(result, 3191)
}
