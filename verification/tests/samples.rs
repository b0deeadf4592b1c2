use room_relay::auth::{JoinUser, LoginUser, User};
use room_relay::graph_ql::QueryRoot;
use room_relay::grpc::CalculatorService;
use room_relay::simd::{add_numbers_slow, example};

#[test]
fn numbers_are_added_place_by_place() {
    assert_eq!(add_numbers_slow(&[1, 2, 3], &[10, 20, 30]), vec![11, 22, 33]);
    assert_eq!(add_numbers_slow(&[], &[]), Vec::<i32>::new());
    assert_eq!(add_numbers_slow(&[-5], &[5, 7]), vec![0]);
    assert_eq!(add_numbers_slow(&[i32::MAX, i32::MIN], &[-1, 1]), vec![i32::MAX - 1, i32::MIN + 1]);
}

#[test]
fn the_worked_example_adds_up() {
    assert_eq!(example(), vec![11, 22, 33, 44, 55]);
}

#[test]
fn a_million_numbers_are_added() {
    let size = 1_000_000;
    let a: Vec<i32> = (0..size).collect();
    let b: Vec<i32> = (1000..size + 1000).collect();
    let sum = add_numbers_slow(&a, &b);
    assert_eq!(sum.len(), 1_000_000);
    assert_eq!(sum[0], 1000);
    assert_eq!(sum[999_999], 2_000_998);
    assert!(sum.iter().enumerate().all(|(i, s)| *s == 2 * i as i32 + 1000));
}

#[test]
fn the_query_service_greets() {
    assert_eq!(QueryRoot.hello(), "Hello, GraphQL World!");
}

#[test]
fn the_query_service_names_its_users() {
    let user = QueryRoot.user(42);
    assert_eq!(user.id, 42);
    assert_eq!(user.name, "tuser42");
    assert_eq!(user.message, "안녕하세요");
    assert_eq!(QueryRoot.user(1).name, "tuser1");
    assert_eq!(QueryRoot.user(0).name, "tuser0");
    assert_eq!(QueryRoot.user(10).name, "tuser10");
    assert_eq!(QueryRoot.user(-7).name, "tuser-7");
    assert_eq!(QueryRoot.user(i32::MAX).name, "tuser2147483647");
    assert_eq!(QueryRoot.user(i32::MIN).name, "tuser-2147483648");
}

#[test]
fn the_query_service_names_users_as_the_formatter_would() {
    for id in [0, 9, 10, 99, 100, 101, 12345, -1, -10, -999, 1_000_000_000, -2_000_000_000] {
        assert_eq!(QueryRoot.user(id).name, format!("tuser{}", id));
    }
}

#[test]
fn the_query_service_adds() {
    assert_eq!(QueryRoot.add(10, 20), 30);
    assert_eq!(QueryRoot.add(15, 25), 40);
    assert_eq!(QueryRoot.add(-3, 3), 0);
    assert_eq!(QueryRoot.add(i32::MAX, 0), i32::MAX);
}

#[test]
fn the_calculator_adds() {
    let calculator = CalculatorService::default();
    assert_eq!(calculator.add(10, 20), 30);
    assert_eq!(calculator.add(-10, 3), -7);
    assert_eq!(calculator.add(i32::MIN, i32::MAX), -1);
}

#[test]
fn the_sign_in_records_hold_what_they_are_given() {
    let login = LoginUser { user_id: "kim".to_string(), user_pw: "pw".to_string() };
    assert_eq!((login.user_id.as_str(), login.user_pw.as_str()), ("kim", "pw"));
    let join = JoinUser {
        user_id: "lee".to_string(),
        user_pw: "secret".to_string(),
        user_name: "Lee".to_string(),
    };
    assert_eq!(join.user_id, "lee");
    assert_eq!(join.user_pw, "secret");
    assert_eq!(join.user_name, "Lee");
    let user = User { id: 7, user_id: "lee".to_string(), user_pw: "secret".to_string() };
    assert_eq!(user.id, 7);
    assert_eq!(user.user_id, "lee");
    assert_eq!(user.user_pw, "secret");
}
