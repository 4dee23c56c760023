use file_tunnel::util::{common_err, gen_password, gen_uuid, ErrKind};

#[test]
fn test_gen_password() {
    let cases: Vec<(usize, usize)> = vec![(0, 0), (1, 1)];
    let _ = cases.iter().map(|(size, expect)| {
        assert_eq!(gen_password(*size).len(), *expect);
    });
}

#[test]
fn test_gen_uuid() {
    let uuid = gen_uuid();
    let slice: Vec<&str> = uuid.split("-").collect();
    assert_eq!(slice.len(), 5);
    let uuid_size: Vec<u8> = vec![16, 4, 4, 4, 12];
    for (idx, str) in slice.iter().enumerate() {
        assert_eq!(uuid_size[idx] as usize, (*str).len());
    }
}

#[test]
fn passwords_draw_from_the_pool() {
    let pool = "0123456789abcdefghijklmnopqrstuvwxyzABCDEFGHIJKLMNOPQRSTUVWXYZ<>?,./;:[]{}~!@#$%^&*()_+-=";
    let pw = gen_password(64);
    assert_eq!(pw.len(), 64);
    for c in pw.chars() {
        assert!(pool.contains(c), "character {:?} is not in the pool", c);
    }
}

#[test]
fn uuids_draw_from_the_short_pool() {
    let uuid = gen_uuid();
    assert_eq!(uuid.len(), 44);
    for (i, c) in uuid.chars().enumerate() {
        if i == 16 || i == 21 || i == 26 || i == 31 {
            assert_eq!(c, '-');
        } else {
            assert!("0123456789abcde".contains(c));
        }
    }
}

#[test]
fn errors_carry_kind_and_message() {
    let e = common_err("something happened", None);
    assert_eq!(e.message(), "something happened");
    assert!(matches!(e.kind(), ErrKind::Other));
    let e2 = common_err("missing", Some(ErrKind::NotFound));
    assert!(matches!(e2.kind(), ErrKind::NotFound));
}
