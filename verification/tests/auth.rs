use compact_tracker::auth::{get_hash, is_root_user, HashCache, UserRole, Users};

#[test]
fn test_get_hash() {
    let hash =
        "$argon2d$v=16$m=2048,t=4,p=2$VGVzdFNhbHQ$CZzrFPtqjY4mIPYwoDztCJ3OGD5M0P37GH4QddwrbZk";
    let mut cache = HashCache::new();
    let res = get_hash(&mut cache, "Pass#123", "TestSalt").unwrap();
    assert_eq!(res, hash);
}

#[test]
fn hash_second_call_hits_cache() {
    let mut cache = HashCache::new();
    let first = get_hash(&mut cache, "Complexpass#123", "root@example.com").unwrap();
    let second = get_hash(&mut cache, "Complexpass#123", "root@example.com").unwrap();
    assert_eq!(first, second);
}

#[test]
fn hash_differs_per_salt_and_pass() {
    let mut cache = HashCache::new();
    let a = get_hash(&mut cache, "Pass#123", "SaltSalt").unwrap();
    let b = get_hash(&mut cache, "Pass#124", "SaltSalt").unwrap();
    let c = get_hash(&mut cache, "Pass#123", "SaltSalu").unwrap();
    assert_ne!(a, b);
    assert_ne!(a, c);
}

#[test]
fn hash_salt_length_bounds() {
    let mut cache = HashCache::new();
    assert!(get_hash(&mut cache, "pw", "1234567").is_none());
    assert!(get_hash(&mut cache, "pw", "12345678").is_some());
    assert!(get_hash(&mut cache, "pw", "s".repeat(48).as_str()).is_some());
    assert!(get_hash(&mut cache, "pw", "s".repeat(49).as_str()).is_none());
    assert!(get_hash(&mut cache, "", "12345678").is_some());
}

#[test]
fn test_is_root_user() {
    let users = Users::new();
    let res = is_root_user(&users, "dummy");
    assert_eq!(res, false);
}

#[test]
fn test_is_root_user2() {
    let mut users = Users::new();
    let _ = users.put_user("root@example.com", UserRole::Root);
    let res = is_root_user(&users, "root@example.com");
    assert_eq!(res, true);
    let res = is_root_user(&users, "root2@example.com");
    assert_eq!(res, false);
}

#[test]
fn non_root_roles_are_not_root() {
    let mut users = Users::new();
    assert!(users.put_user("admin@example.com", UserRole::Admin));
    assert!(users.put_user("member@example.com", UserRole::Member));
    assert!(!is_root_user(&users, "admin@example.com"));
    assert!(!is_root_user(&users, "member@example.com"));
}

#[test]
fn duplicate_user_is_refused() {
    let mut users = Users::new();
    assert!(users.put_user("root@example.com", UserRole::Root));
    assert!(!users.put_user("root@example.com", UserRole::Member));
    assert!(is_root_user(&users, "root@example.com"));
}
