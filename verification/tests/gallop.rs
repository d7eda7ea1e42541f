use imp::gallop::gallop;

#[test]
fn test() {
    let col = (0..1000).collect::<Vec<_>>();
    for i in 0..1000 {
        assert_eq!(col[gallop(&*col, 0, 1000, |&x| x < i)], i);
    }
    assert_eq!(gallop(&*col, 0, col.len(), |&x| x < -1), 0);
    assert_eq!(gallop(&*col, 0, col.len(), |&x| x < 1000), 1000);

    for i in 0..999 {
        assert_eq!(col[gallop(&*col, 0, col.len(), |&x| x <= i)], i + 1);
    }
    assert_eq!(gallop(&*col, 0, col.len(), |&x| x <= -1), 0);
    assert_eq!(gallop(&*col, 0, col.len(), |&x| x <= 999), 1000);
}

#[test]
fn gallop_on_empty_range_returns_lo() {
    let col: Vec<i32> = vec![1, 2, 3];
    assert_eq!(gallop(&*col, 2, 2, |&x| x < 10), 2);
    assert_eq!(gallop(&*col, 3, 1, |&x| x < 10), 3);
    let none: Vec<i32> = vec![];
    assert_eq!(gallop(&*none, 0, 0, |&x| x < 10), 0);
}

#[test]
fn gallop_on_single_element() {
    let col: Vec<i32> = vec![5];
    assert_eq!(gallop(&*col, 0, 1, |&x| x < 5), 0);
    assert_eq!(gallop(&*col, 0, 1, |&x| x <= 5), 1);
    assert_eq!(gallop(&*col, 0, 1, |&x| x < 6), 1);
    assert_eq!(gallop(&*col, 0, 1, |&x| x < -1), 0);
}

#[test]
fn gallop_matches_linear_scan_on_every_range() {
    for n in 1..40i32 {
        let col = (0..n).collect::<Vec<_>>();
        for k in -1..=n + 1 {
            for lo in 0..=n as usize {
                let below = col.iter().skip(lo).take_while(|&&x| x < k).count() + lo;
                let upto = col.iter().skip(lo).take_while(|&&x| x <= k).count() + lo;
                assert_eq!(gallop(&*col, lo, col.len(), |&x| x < k), below);
                assert_eq!(gallop(&*col, lo, col.len(), |&x| x <= k), upto);
            }
        }
    }
}

#[test]
fn gallop_stays_below_hi() {
    let col = (0..100).collect::<Vec<i32>>();
    assert_eq!(gallop(&*col, 10, 20, |&x| x < 50), 20);
    assert_eq!(gallop(&*col, 10, 20, |&x| x < 15), 15);
    assert_eq!(gallop(&*col, 10, 20, |&x| x < 5), 10);
}
