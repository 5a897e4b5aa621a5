use lib::poison::{map_result, Flag, LockResult, PoisonError, TryLockError};

#[test]
fn flag_starts_lowered() {
    let f = Flag::new();
    assert!(!f.get());
    assert!(f.borrow(false).is_ok());
}

#[test]
fn flag_raised_by_panic_while_held() {
    let mut f = Flag::new();
    let g = f.borrow(false).unwrap();
    f.done(&g, true);
    assert!(f.get());
    assert!(f.borrow(false).is_err());
    // Once raised it stays raised.
    let g = f.borrow(false).unwrap_err().into_inner();
    f.done(&g, false);
    assert!(f.get());
}

#[test]
fn flag_not_raised_without_new_panic() {
    let mut f = Flag::new();
    let g = f.borrow(false).unwrap();
    f.done(&g, false);
    assert!(!f.get());
    let g = f.borrow(true).unwrap();
    f.done(&g, true);
    assert!(!f.get());
}

#[test]
fn map_result_keeps_ok() {
    let r: LockResult<i32> = Ok(1);
    assert_eq!(map_result(r, |x| x + 1).unwrap(), 2);
}

#[test]
fn map_result_keeps_err() {
    let r: LockResult<i32> = Err(PoisonError::new(4));
    match map_result(r, |x| x * 10) {
        Err(e) => assert_eq!(e.into_inner(), 40),
        Ok(_) => panic!("expected an error"),
    }
}

#[test]
fn poison_error_gives_access() {
    let mut e = PoisonError::new(String::from("a"));
    assert_eq!(e.get_ref(), "a");
    e.get_mut().push('b');
    assert_eq!(e.into_inner(), "ab");
    let t: TryLockError<u8> = TryLockError::WouldBlock;
    assert!(matches!(t, TryLockError::WouldBlock));
}

#[test]
fn map_result_identity_and_composition() {
    let r: LockResult<i32> = Err(PoisonError::new(3));
    let same = map_result(r, |x| x);
    assert_eq!(same.unwrap_err().into_inner(), 3);
    let f = |x: i32| x + 1;
    let g = |x: i32| x * 2;
    let once = map_result(Err(PoisonError::new(3)), |x| g(f(x)));
    let twice = map_result(map_result(Err(PoisonError::new(3)), f), g);
    assert_eq!(once.unwrap_err().into_inner(), twice.unwrap_err().into_inner());
    let ok: LockResult<i32> = Ok(5);
    assert_eq!(map_result(map_result(ok, f), g).unwrap(), 12);
}
