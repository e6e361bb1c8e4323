use zsem_plan::extract::{get_schedule_from_html, ScheduleError};
use zsem_plan::schedule::{GroupScheduleField, Schedule, ScheduleFieldEnum, ScheduleRow};
use zsem_plan::text::resolve_group;

fn page(rows: &str) -> String {
    format!(
        "<html><head><title>Plan</title></head><body><table class=\"tabela\">\
         <tr><th>Nr</th><th>Godz</th><th>Pn</th><th>Wt</th><th>Sr</th><th>Cz</th><th>Pt</th></tr>\
         {}</table></body></html>",
        rows
    )
}

fn row(nr: usize, time: &str, cells: [&str; 5]) -> String {
    let mut s = format!("<tr><td class=\"nr\">{}</td><td class=\"g\">{}</td>", nr, time);
    for c in cells.iter() {
        s.push_str(&format!("<td class=\"l\">{}</td>", c));
    }
    s.push_str("</tr>");
    s
}

fn occ(f: &GroupScheduleField) -> (&str, &str, &str) {
    (f.subject.as_str(), f.teacher.as_str(), f.classroom.as_str())
}

fn single(f: &Option<ScheduleFieldEnum>) -> (&str, &str, &str) {
    match f {
        Some(ScheduleFieldEnum::Class(g)) => occ(g),
        other => panic!("expected one session, got {:?}", other),
    }
}

fn grouped(f: &Option<ScheduleFieldEnum>) -> &std::collections::HashMap<u8, GroupScheduleField> {
    match f {
        Some(ScheduleFieldEnum::Group(m)) => m,
        other => panic!("expected groups, got {:?}", other),
    }
}

const SINGLE: &str = "<span class=\"p\"> matematyka </span> <a href=\"../n/n1.html\" class=\"n\">JK</a> <a href=\"../s/s1.html\" class=\"s\">12</a>";
const NESTED: &str = "<span style=\"font-size:85%\"><span class=\"p\">informatyka-1/2</span> <a class=\"n\" href=\"n2.html\">AB</a> <a class=\"s\" href=\"s2.html\">21</a></span><br><span style=\"font-size:85%\"><span class=\"p\">informatyka-2/2</span> <a class=\"n\" href=\"n3.html\">CD</a> <a class=\"s\" href=\"s3.html\">22</a></span>";
const LABEL_ROOM: &str = "<span class=\"p\">j.polski</span> <a class=\"n\" href=\"n4.html\">EF</a> <span class=\"s\">aula</span>";
const FLAT: &str = "<span class=\"p\">fizyka</span> <a class=\"n\" href=\"n5.html\">KL</a> <a class=\"s\" href=\"s5.html\">3</a><br><span class=\"p\">chemia-2/2</span> <a class=\"n\" href=\"n6.html\">MN</a> <a class=\"s\" href=\"s6.html\">4</a>";

#[test]
fn test_get_schedule_from_html() {
    let mut rows = String::new();
    for i in 0..8 {
        rows.push_str(&row(i + 1, &format!(" {}:00- {}:45", 8 + i, 8 + i), [SINGLE, "&nbsp;", NESTED, LABEL_ROOM, FLAT]));
    }
    let schedule = get_schedule_from_html(&page(&rows)).unwrap();
    assert_eq!(schedule.time.len(), 8);
}

#[test]
fn eight_rows_first_time_label() {
    let mut rows = String::new();
    for i in 0..8 {
        rows.push_str("<tr><td colspan=\"7\">przerwa</td></tr>");
        rows.push_str(&row(i + 1, &format!(" {}:00- {}:45", 8 + i, 8 + i), [SINGLE, "&nbsp;", "&nbsp;", "&nbsp;", "&nbsp;"]));
    }
    let schedule = get_schedule_from_html(&page(&rows)).unwrap();
    assert_eq!(schedule.time.len(), 8);
    assert_eq!(schedule.monday.len(), 8);
    assert_eq!(schedule.friday.len(), 8);
    assert_eq!(schedule.time[0], "8:00-8:45");
    assert!(!schedule.time[0].is_empty());
    assert_eq!(schedule.time[7], "15:00-15:45");
}

#[test]
fn every_shape_of_cell() {
    let rows = row(1, "8:00-8:45", [SINGLE, "&nbsp;", NESTED, LABEL_ROOM, FLAT]);
    let s = get_schedule_from_html(&page(&rows)).unwrap();
    assert_eq!(s.time.len(), 1);
    assert_eq!(single(&s.monday[0]), ("matematyka", "JK", "12"));
    assert!(s.tuesday[0].is_none());
    let wed = grouped(&s.wednesday[0]);
    assert_eq!(wed.len(), 2);
    assert_eq!(occ(&wed[&1]), ("informatyka", "AB", "21"));
    assert_eq!(occ(&wed[&2]), ("informatyka", "CD", "22"));
    assert_eq!(single(&s.thursday[0]), ("j.polski", "EF", "aula"));
    let fri = grouped(&s.friday[0]);
    assert_eq!(fri.len(), 2);
    assert_eq!(occ(&fri[&0]), ("fizyka", "KL", "3"));
    assert_eq!(occ(&fri[&2]), ("chemia", "MN", "4"));
}

#[test]
fn two_markers_second_with_suffix() {
    let rows = row(1, "8:00-8:45", [FLAT, FLAT, FLAT, FLAT, FLAT]);
    let s = get_schedule_from_html(&page(&rows)).unwrap();
    let m = grouped(&s.monday[0]);
    assert_eq!(m.len(), 2);
    assert!(m.contains_key(&0));
    assert!(m.contains_key(&2));
    assert_eq!(m[&2].subject, "chemia");
    assert_eq!(m[&0].subject, "fizyka");
}

#[test]
fn no_subject_marker_is_empty() {
    let rows = row(1, "8:00-8:45", ["religia", "<span>x</span>", "<a class=\"n\">AB</a>", "&nbsp;", ""]);
    let s = get_schedule_from_html(&page(&rows)).unwrap();
    assert_eq!(s.time.len(), 1);
    assert!(s.monday[0].is_none());
    assert!(s.tuesday[0].is_none());
    assert!(s.wednesday[0].is_none());
    assert!(s.thursday[0].is_none());
    assert!(s.friday[0].is_none());
}

#[test]
fn empty_content_on_every_weekday() {
    let mut rows = String::new();
    for i in 0..3 {
        rows.push_str(&row(i + 1, "9:00", ["&nbsp;", "&nbsp;", "&nbsp;", "&nbsp;", "&nbsp;"]));
    }
    let s = get_schedule_from_html(&page(&rows)).unwrap();
    assert_eq!(s.time.len(), 3);
    for i in 0..3 {
        assert!(s.monday[i].is_none());
        assert!(s.tuesday[i].is_none());
        assert!(s.wednesday[i].is_none());
        assert!(s.thursday[i].is_none());
        assert!(s.friday[i].is_none());
    }
}

#[test]
fn single_session_without_teacher_is_empty() {
    let rows = row(1, "8:00", ["<span class=\"p\">biologia</span> <a class=\"s\">5</a>", "&nbsp;", "&nbsp;", "&nbsp;", "&nbsp;"]);
    let s = get_schedule_from_html(&page(&rows)).unwrap();
    assert!(s.monday[0].is_none());
}

#[test]
fn single_session_without_room() {
    let rows = row(1, "8:00", ["<span class=\"p\">biologia</span> <a class=\"n\">OP</a>", "&nbsp;", "&nbsp;", "&nbsp;", "&nbsp;"]);
    let s = get_schedule_from_html(&page(&rows)).unwrap();
    assert_eq!(single(&s.monday[0]), ("biologia", "OP", ""));
}

#[test]
fn group_without_teacher_is_left_out() {
    let cell = "<span class=\"p\">wf-1/2</span> <a class=\"n\">GH</a> <a class=\"s\">s1</a><br><span class=\"p\">wf-2/2</span> <a class=\"s\">s2</a>";
    let rows = row(1, "8:00", [cell, "&nbsp;", "&nbsp;", "&nbsp;", "&nbsp;"]);
    let s = get_schedule_from_html(&page(&rows)).unwrap();
    let m = grouped(&s.monday[0]);
    assert_eq!(m.len(), 1);
    assert_eq!(occ(&m[&1]), ("wf", "GH", "s1"));
}

#[test]
fn same_group_keeps_the_later_session() {
    let cell = "<span class=\"p\">a</span> <a class=\"n\">X</a> <a class=\"s\">1</a><span class=\"p\">b</span> <a class=\"n\">Y</a> <a class=\"s\">2</a>";
    let rows = row(1, "8:00", [cell, "&nbsp;", "&nbsp;", "&nbsp;", "&nbsp;"]);
    let s = get_schedule_from_html(&page(&rows)).unwrap();
    let m = grouped(&s.monday[0]);
    assert_eq!(m.len(), 1);
    assert_eq!(occ(&m[&0]), ("b", "Y", "2"));
}

#[test]
fn row_with_fewer_than_five_day_cells_is_skipped() {
    let mut rows = row(1, "8:00", [SINGLE, "&nbsp;", "&nbsp;", "&nbsp;", "&nbsp;"]);
    rows.push_str("<tr><td class=\"g\">9:00</td><td class=\"l\">&nbsp;</td><td class=\"l\">&nbsp;</td></tr>");
    rows.push_str(&row(3, "10:00", [SINGLE, "&nbsp;", "&nbsp;", "&nbsp;", "&nbsp;"]));
    let s = get_schedule_from_html(&page(&rows)).unwrap();
    assert_eq!(s.time, vec!["8:00".to_string(), "10:00".to_string()]);
}

#[test]
fn missing_timetable_fails() {
    let r = get_schedule_from_html("<html><body><p>nic</p></body></html>");
    assert_eq!(r.err(), Some(ScheduleError::MissingTimetable));
    let r = get_schedule_from_html("<table class=\"plan\"><tr><td class=\"g\">8:00</td></tr></table>");
    assert_eq!(r.err(), Some(ScheduleError::MissingTimetable));
    let r = get_schedule_from_html("");
    assert_eq!(r.err(), Some(ScheduleError::MissingTimetable));
}

#[test]
fn empty_timetable_is_empty_schedule() {
    let s = get_schedule_from_html(&page("")).unwrap();
    assert_eq!(s.time.len(), 0);
}

#[test]
fn group_suffix_is_split_off() {
    let (g, s) = resolve_group("j.ang-3/4");
    assert_eq!((g, s.as_str()), (3, "j.ang"));
    let (g, s) = resolve_group("a-b-12/20");
    assert_eq!((g, s.as_str()), (12, "ab"));
    let (g, s) = resolve_group("+-7");
    assert_eq!((g, s.as_str()), (7, "+"));
    let (g, s) = resolve_group("x-+5/6");
    assert_eq!((g, s.as_str()), (5, "x"));
}

#[test]
fn group_suffix_defaults_to_zero() {
    let (g, s) = resolve_group("matematyka");
    assert_eq!((g, s.as_str()), (0, "matematyka"));
    let (g, s) = resolve_group("wf-dz");
    assert_eq!((g, s.as_str()), (0, "wf-dz"));
    let (g, s) = resolve_group("wf-300/2");
    assert_eq!((g, s.as_str()), (0, "wf-300/2"));
    let (g, s) = resolve_group("wf-/2");
    assert_eq!((g, s.as_str()), (0, "wf-/2"));
    let (g, s) = resolve_group("wf-255/2");
    assert_eq!((g, s.as_str()), (255, "wf"));
}

#[test]
fn add_row_appends_in_order() {
    let mut s = Schedule::new();
    assert_eq!(s.time.len(), 0);
    let f = GroupScheduleField { subject: "a".to_string(), teacher: "b".to_string(), classroom: "c".to_string() };
    s.add_row(ScheduleRow {
        time: "8:00".to_string(),
        monday: Some(ScheduleFieldEnum::Class(f)),
        tuesday: None,
        wednesday: None,
        thursday: None,
        friday: None,
    });
    s.add_row(ScheduleRow { time: "9:00".to_string(), monday: None, tuesday: None, wednesday: None, thursday: None, friday: None });
    assert_eq!(s.time, vec!["8:00".to_string(), "9:00".to_string()]);
    assert_eq!(s.monday.len(), 2);
    assert_eq!(s.friday.len(), 2);
    assert!(s.monday[1].is_none());
    assert_eq!(single(&s.monday[0]), ("a", "b", "c"));
}
