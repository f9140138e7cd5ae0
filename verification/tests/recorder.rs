use rstim::recorder::Recorder;

#[test]
fn recorder_rec_offsets_work() {
    let mut r = Recorder::default();
    r.push(false);
    r.push(true);
    assert_eq!(r.rec(-1).unwrap(), true);
    assert_eq!(r.rec(-2).unwrap(), false);
}

#[test]
fn recorder_rejects_out_of_range_offsets() {
    let mut r = Recorder::new();
    r.push(true);
    assert_eq!(r.rec(0), None);
    assert_eq!(r.rec(1), None);
    assert_eq!(r.rec(-2), None);
    assert_eq!(r.rec(-1), Some(true));
}

#[test]
fn recorder_extend_appends_in_order() {
    let mut a = Recorder::new();
    a.push(true);
    let mut b = Recorder::new();
    b.push(false);
    b.push(true);
    a.extend(&b);
    assert_eq!(a.len(), 3);
    assert_eq!(a.rec(-3), Some(true));
    assert_eq!(a.rec(-2), Some(false));
    assert_eq!(a.rec(-1), Some(true));
}
