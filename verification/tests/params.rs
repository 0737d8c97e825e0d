use poly_commit::code::{domain_size, MAX_CODEWORD_LEN};
use poly_commit::error::Error;
use poly_commit::params::{
    ceil_div, ceil_sqrt, compute_dimensions, query_count, setup, trim, LigeroPCParams, MAX_QUERIES,
    MAX_SECURITY,
};

#[test]
fn square_roots_are_rounded_up() {
    assert_eq!(ceil_sqrt(0), 0);
    assert_eq!(ceil_sqrt(1), 1);
    assert_eq!(ceil_sqrt(2), 2);
    assert_eq!(ceil_sqrt(4), 2);
    assert_eq!(ceil_sqrt(5), 3);
    assert_eq!(ceil_sqrt(9), 3);
    assert_eq!(ceil_sqrt(10), 4);
    assert_eq!(ceil_sqrt(1 << 20), 1 << 10);
    assert_eq!(ceil_sqrt((1 << 20) + 1), (1 << 10) + 1);
    assert_eq!(ceil_sqrt(MAX_CODEWORD_LEN), 1 << 15);
}

#[test]
fn quotients_are_rounded_up() {
    assert_eq!(ceil_div(0, 3), 0);
    assert_eq!(ceil_div(1, 3), 1);
    assert_eq!(ceil_div(3, 3), 1);
    assert_eq!(ceil_div(4, 3), 2);
    assert_eq!(ceil_div(17, 1), 17);
    assert_eq!(ceil_div(usize::MAX, 2), usize::MAX / 2 + 1);
}

#[test]
fn domains_have_the_next_power_of_two_of_elements() {
    assert_eq!(domain_size(0), None);
    assert_eq!(domain_size(1), Some(1));
    assert_eq!(domain_size(2), Some(2));
    assert_eq!(domain_size(3), Some(4));
    assert_eq!(domain_size(1000), Some(1024));
    assert_eq!(domain_size(1024), Some(1024));
    assert_eq!(domain_size(MAX_CODEWORD_LEN), Some(MAX_CODEWORD_LEN));
    assert_eq!(domain_size(MAX_CODEWORD_LEN + 1), None);
}

#[test]
fn matrix_is_about_square() {
    assert_eq!(compute_dimensions(0), Err(Error::InvalidParameters));
    assert_eq!(compute_dimensions(1), Ok((1, 1)));
    assert_eq!(compute_dimensions(2), Ok((1, 2)));
    assert_eq!(compute_dimensions(5), Ok((2, 4)));
    assert_eq!(compute_dimensions(16), Ok((4, 4)));
    assert_eq!(compute_dimensions(17), Ok((3, 8)));
    assert_eq!(compute_dimensions(65), Ok((5, 16)));
    assert_eq!(compute_dimensions(1 << 20), Ok((1 << 10, 1 << 10)));
    assert_eq!(compute_dimensions(MAX_CODEWORD_LEN), Ok((1 << 15, 1 << 15)));
    assert_eq!(compute_dimensions(MAX_CODEWORD_LEN + 1), Err(Error::InvalidParameters));
}

#[test]
fn queries_are_the_fewest_that_reach_the_security_level() {
    // (1/4)^t + 2^20 / |F| <= 2^-128 first holds at t = 65.
    assert_eq!(query_count(128, (3, 4), 1 << 20), Ok(65));
    // (1/2)^t + 2^20 / |F| <= 2^-100 first holds at t = 101.
    assert_eq!(query_count(100, (1, 2), 1 << 20), Ok(101));
    assert_eq!(query_count(1, (1, 2), 1 << 20), Ok(2));
    assert_eq!(query_count(0, (1, 2), 1 << 20), Ok(1));
    // (5/8)^t <= 2^-128 first holds at t = 189.
    assert_eq!(query_count(128, (3, 8), 1 << 20), Ok(189));
    assert_eq!(query_count(128, (1, 1), 1 << 20), Ok(1));
}

#[test]
fn all_columns_are_enough() {
    assert_eq!(query_count(128, (3, 4), 16), Ok(16));
    assert_eq!(query_count(128, (3, 4), 64), Ok(64));
    assert_eq!(query_count(128, (3, 4), 65), Ok(65));
    assert_eq!(query_count(128, (3, 4), 66), Ok(65));
    assert_eq!(query_count(128, (1, 1000), 1), Ok(1));
    assert_eq!(query_count(254, (1, 2), 1), Ok(1));
}

#[test]
fn unreachable_security_is_refused() {
    assert_eq!(query_count(128, (0, 4), 1 << 10), Err(Error::InvalidParameters));
    assert_eq!(query_count(128, (5, 4), 1 << 10), Err(Error::InvalidParameters));
    assert_eq!(query_count(128, (0, 0), 1 << 10), Err(Error::InvalidParameters));
    assert_eq!(query_count(128, (3, 4), 0), Err(Error::InvalidParameters));
    assert_eq!(query_count(MAX_SECURITY + 1, (3, 4), 4), Err(Error::InvalidParameters));
    // The field has fewer than 2^255 elements.
    assert_eq!(query_count(255, (3, 4), 1), Err(Error::InvalidParameters));
    assert_eq!(query_count(250, (3, 4), 1 << 10), Err(Error::InvalidParameters));
    assert_eq!(query_count(128, (1, u32::MAX as usize + 1), 4), Err(Error::InvalidParameters));
    // A distance too small for the limit on queries.
    assert_eq!(query_count(128, (1, 1000), 1 << 20), Err(Error::InvalidParameters));
    assert_eq!(query_count(128, (1, 1000), MAX_QUERIES), Ok(MAX_QUERIES));
}

#[test]
fn shape_and_queries_are_derived_together() {
    assert_eq!(poly_commit::params::derive(128, 5, 4, (3, 4)), Ok((2, 4, 16, 16)));
    assert_eq!(poly_commit::params::derive(128, 1 << 20, 4, (3, 4)), Ok((1 << 10, 1 << 10, 1 << 12, 65)));
    assert_eq!(poly_commit::params::derive(128, 1 << 20, 3, (2, 3)), Ok((1 << 10, 1 << 10, 1 << 12, 81)));
    assert_eq!(poly_commit::params::derive(128, 0, 4, (3, 4)), Err(Error::InvalidParameters));
    assert_eq!(poly_commit::params::derive(128, 100, 1, (3, 4)), Err(Error::InvalidParameters));
    assert_eq!(poly_commit::params::derive(128, 100, 4, (0, 4)), Err(Error::InvalidParameters));
    assert_eq!(poly_commit::params::derive(300, 100, 4, (3, 4)), Err(Error::InvalidParameters));
    assert_eq!(poly_commit::params::derive(128, MAX_CODEWORD_LEN, 1 << 16, (3, 4)), Err(Error::InvalidParameters));
}

#[test]
fn keys_are_the_parameters() {
    let pp = setup(128);
    assert_eq!(pp, LigeroPCParams::new(128, 4, true, (), (), ()));
    assert_eq!(setup(80).sec_param, 80);
    let (ck, vk) = trim(&pp, 17);
    assert_eq!(ck, pp);
    assert_eq!(vk, pp);
    let sec = LigeroPCParams::new(100, 8, false, (), (), ()).security();
    assert_eq!(
        (sec.sec_param, sec.distance_num, sec.distance_den, sec.check_well_formedness),
        (100, 7, 8, false)
    );
    let none = LigeroPCParams::new(100, 0, false, (), (), ()).security();
    assert_eq!((none.distance_num, none.distance_den), (0, 0));
}
