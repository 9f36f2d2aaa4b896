use ipr::ip::check_subnet;
use ipr::ip::get_bit;
use ipr::ip::get_broadcast_address;
use ipr::ip::get_network_address;
use ipr::ip::get_subnet_mask;
use ipr::ip::make_address;
use ipr::ip::IpError;

#[test]
fn test_normal_get_bit() {
    let data: Vec<Vec<&str>> = vec![
        vec!["123.123.123.123", "01111011011110110111101101111011"],
        vec!["172.22.24.186", "10101100000101100001100010111010"],
        vec!["1.1.1.1", "00000001000000010000000100000001"],
        vec!["0.0.0.0", "00000000000000000000000000000000"],
        vec!["255.255.255.255", "11111111111111111111111111111111"],
    ];
    for d in &data {
        match get_bit(d[0]) {
            Ok(recived) => assert_eq!(recived, d[1]),
            Err(_) => panic!("this response must not be error"),
        };
    }
}

#[test]
fn test_abnormal_get_bit() {
    let data: Vec<(&str, IpError)> = vec![
        ("123.123.123.123.123", IpError::InvalidFormat),
        ("123.123.123.256", IpError::ParseError),
    ];
    for d in &data {
        match get_bit(d.0) {
            Ok(_) => panic!("this response must be error"),
            Err(e) => assert_eq!(e, d.1),
        };
    }
}

#[test]
fn test_normal_get_subnet_mask() {
    let ips = [
        "0.0.0.0",
        "128.0.0.0",
        "192.0.0.0",
        "224.0.0.0",
        "240.0.0.0",
        "248.0.0.0",
        "252.0.0.0",
        "254.0.0.0",
        "255.0.0.0",
        "255.128.0.0",
        "255.192.0.0",
        "255.224.0.0",
        "255.240.0.0",
        "255.248.0.0",
        "255.252.0.0",
        "255.254.0.0",
        "255.255.0.0",
        "255.255.128.0",
        "255.255.192.0",
        "255.255.224.0",
        "255.255.240.0",
        "255.255.248.0",
        "255.255.252.0",
        "255.255.254.0",
        "255.255.255.0",
        "255.255.255.128",
        "255.255.255.192",
        "255.255.255.224",
        "255.255.255.240",
        "255.255.255.248",
        "255.255.255.252",
        "255.255.255.254",
        "255.255.255.255",
    ];
    for (i, expected) in ips.iter().enumerate() {
        match get_subnet_mask(i as u8) {
            Ok(recived) => assert_eq!(recived, expected.to_string()),
            Err(_) => panic!("this response must not be error"),
        }
    }
}

#[test]
fn test_abnormal_get_subnet_mask() {
    match get_subnet_mask(33) {
        Ok(_) => panic!("this response must be error"),
        Err(e) => assert_eq!(e, IpError::InvalidPrefix),
    }
}

struct TestStruct {
    ip: &'static str,
    mask: u8,
    expected: &'static str,
}

impl TestStruct {
    fn new(ip: &'static str, mask: u8, expected: &'static str) -> TestStruct {
        Self { ip, mask, expected }
    }
}

#[test]
fn test_get_network_address() {
    let test_structs: Vec<TestStruct> = vec![
        TestStruct::new("192.168.11.1", 0, "0.0.0.0"),
        TestStruct::new("192.168.11.1", 8, "192.0.0.0"),
        TestStruct::new("192.168.11.1", 10, "192.128.0.0"),
        TestStruct::new("192.168.11.1", 16, "192.168.0.0"),
        TestStruct::new("192.168.11.1", 20, "192.168.0.0"),
        TestStruct::new("192.168.11.1", 21, "192.168.8.0"),
        TestStruct::new("192.168.11.1", 22, "192.168.8.0"),
        TestStruct::new("192.168.11.1", 23, "192.168.10.0"),
        TestStruct::new("192.168.11.1", 24, "192.168.11.0"),
        TestStruct::new("192.168.11.1", 32, "192.168.11.1"),
    ];
    for ts in test_structs {
        match get_network_address(ts.ip, ts.mask) {
            Ok(recived) => assert_eq!(recived, ts.expected),
            Err(_) => panic!("this response must not be error"),
        };
    }
}

#[test]
fn test_get_broadcast_address() {
    let test_structs: Vec<TestStruct> = vec![
        TestStruct::new("192.168.11.1", 0, "255.255.255.255"),
        TestStruct::new("192.168.11.1", 8, "192.255.255.255"),
        TestStruct::new("192.168.11.1", 10, "192.191.255.255"),
        TestStruct::new("192.168.11.1", 16, "192.168.255.255"),
        TestStruct::new("192.168.11.1", 20, "192.168.15.255"),
        TestStruct::new("192.168.11.1", 21, "192.168.15.255"),
        TestStruct::new("192.168.11.1", 22, "192.168.11.255"),
        TestStruct::new("192.168.11.1", 23, "192.168.11.255"),
        TestStruct::new("192.168.11.1", 24, "192.168.11.255"),
        TestStruct::new("192.168.11.1", 32, "192.168.11.1"),
    ];
    for ts in test_structs {
        match get_broadcast_address(ts.ip, ts.mask) {
            Ok(recived) => assert_eq!(recived, ts.expected),
            Err(_) => panic!("this response must not be error"),
        };
    }
}

#[test]
fn test_normal_check_subnet() {
    let cases: Vec<(&str, &str, bool)> = vec![
        ("192.168.11.1", "192.168.11.1/32", true),
        ("192.168.11.0", "192.168.11.1/31", true),
        ("192.168.11.1", "192.168.11.1/31", true),
        ("192.168.11.2", "192.168.11.1/31", false),
        ("192.168.11.1", "192.168.11.1/24", true),
        ("192.168.11.255", "192.168.11.1/24", true),
        ("192.168.12.0", "192.168.11.1/24", false),
        ("192.167.255.255", "192.168.11.1/16", false),
        ("192.168.0.0", "192.168.11.1/16", true),
        ("192.168.255.255", "192.168.11.1/16", true),
        ("192.169.0.0", "192.168.11.1/16", false),
        ("191.255.255.255", "192.168.11.1/8", false),
        ("192.0.0.0", "192.168.11.1/8", true),
        ("192.255.255.255", "192.168.11.1/8", true),
        ("193.0.0.0", "192.168.11.1/8", false),
        ("127.255.255.255", "192.168.11.1/1", false),
        ("128.0.0.0", "192.168.11.1/1", true),
        ("128.255.255.255", "192.168.11.1/1", true),
        ("255.255.255.255", "192.168.11.1/1", true),
    ];
    for (ip, range, expected) in cases {
        match check_subnet(ip, range) {
            Ok(recived) => {
                assert_eq!(recived, expected, "ip: {}, range: {}", ip, range)
            }
            Err(_) => panic!("this response must not be error"),
        };
    }
}

#[test]
fn test_abnormal_check_subnet() {
    match check_subnet("123.123.123.123", "123.123.123.123/33") {
        Ok(_) => panic!("the response must be error"),
        Err(e) => assert_eq!(e, IpError::InvalidPrefix),
    };
}

#[test]
fn test_round_trip_all_octets() {
    for v in 0..=255u32 {
        let addr = format!("{}.{}.{}.{}", v, 255 - v, v, 255 - v);
        let bits = get_bit(&addr).unwrap();
        assert_eq!(bits.len(), 32);
        assert_eq!(make_address(&bits).unwrap(), addr);
    }
}

#[test]
fn test_make_address_renders_chunks() {
    assert_eq!(
        make_address("11000000101010000000101100000001").unwrap(),
        "192.168.11.1"
    );
    assert_eq!(
        make_address("00000000000000000000000000000000").unwrap(),
        "0.0.0.0"
    );
    assert_eq!(
        make_address("11111111111111111111111111111111").unwrap(),
        "255.255.255.255"
    );
}

#[test]
fn test_make_address_rejects_non_binary() {
    match make_address("1100000010101000000010110000000x") {
        Ok(_) => panic!("this response must be error"),
        Err(e) => assert_eq!(e, IpError::RadixParseError),
    };
    match make_address("21000000101010000000101100000001") {
        Ok(_) => panic!("this response must be error"),
        Err(e) => assert_eq!(e, IpError::RadixParseError),
    };
}

#[test]
fn test_get_bit_short_input_pads_high_octets() {
    assert_eq!(get_bit("1.2").unwrap(), "00000000000000000000000100000010");
    assert_eq!(get_bit("5").unwrap(), "00000000000000000000000000000101");
}

#[test]
fn test_get_bit_rejects_malformed_fields() {
    assert_eq!(get_bit("").unwrap_err(), IpError::ParseError);
    assert_eq!(get_bit("1.2.3.a").unwrap_err(), IpError::ParseError);
    assert_eq!(get_bit("1..2.3").unwrap_err(), IpError::ParseError);
    assert_eq!(get_bit("1.2.3.4.5.6").unwrap_err(), IpError::InvalidFormat);
}

#[test]
fn test_boundary_rejection() {
    assert_eq!(get_subnet_mask(33).unwrap_err(), IpError::InvalidPrefix);
    assert_eq!(get_subnet_mask(255).unwrap_err(), IpError::InvalidPrefix);
    assert_eq!(
        get_network_address("192.168.11.1", 33).unwrap_err(),
        IpError::InvalidPrefix
    );
    assert_eq!(
        get_broadcast_address("192.168.11.1", 33).unwrap_err(),
        IpError::InvalidPrefix
    );
    assert_eq!(
        check_subnet("192.168.11.1", "192.168.11.1/0").unwrap_err(),
        IpError::InvalidPrefix
    );
    assert_eq!(
        check_subnet("192.168.11.1", "192.168.11.1/33").unwrap_err(),
        IpError::InvalidPrefix
    );
}

#[test]
fn test_check_subnet_malformed_literals() {
    assert_eq!(
        check_subnet("1.2.3.4", "1.2.3.4").unwrap_err(),
        IpError::InvalidFormat
    );
    assert_eq!(
        check_subnet("1.2.3.4", "1.2.3.4/8/9").unwrap_err(),
        IpError::InvalidFormat
    );
    assert_eq!(
        check_subnet("1.2.3.4", "1.2.3.4/abc").unwrap_err(),
        IpError::ParseError
    );
    assert_eq!(
        check_subnet("1.2.3.4", "1.2.3.4/256").unwrap_err(),
        IpError::ParseError
    );
    assert_eq!(
        check_subnet("1.2.3.4", "1.2.3.256/8").unwrap_err(),
        IpError::ParseError
    );
    assert_eq!(
        check_subnet("1.2.3.256", "1.2.3.4/8").unwrap_err(),
        IpError::ParseError
    );
}

#[test]
fn test_mask_monotone_samples() {
    let mut previous = get_subnet_mask(0).unwrap();
    assert_eq!(previous, "0.0.0.0");
    for p in 1..=32u8 {
        let current = get_subnet_mask(p).unwrap();
        let prev_bits = get_bit(&previous).unwrap();
        let cur_bits = get_bit(&current).unwrap();
        for (a, b) in prev_bits.chars().zip(cur_bits.chars()) {
            assert!(a != '1' || b == '1', "mask for {} must cover the shorter prefix", p);
        }
        previous = current;
    }
    assert_eq!(previous, "255.255.255.255");
}

#[test]
fn test_network_le_address_le_broadcast_samples() {
    let addrs = ["0.0.0.0", "10.20.30.40", "172.22.24.186", "255.255.255.255"];
    for addr in addrs {
        let addr_bits = u32::from_str_radix(&get_bit(addr).unwrap(), 2).unwrap();
        for p in 0..=32u8 {
            let net = get_network_address(addr, p).unwrap();
            let bc = get_broadcast_address(addr, p).unwrap();
            let net_bits = u32::from_str_radix(&get_bit(&net).unwrap(), 2).unwrap();
            let bc_bits = u32::from_str_radix(&get_bit(&bc).unwrap(), 2).unwrap();
            assert!(net_bits <= addr_bits);
            assert!(addr_bits <= bc_bits);
        }
    }
}

#[test]
fn test_identity_at_full_prefix() {
    let addrs = ["0.0.0.0", "192.168.11.1", "255.255.255.255"];
    for addr in addrs {
        assert_eq!(get_network_address(addr, 32).unwrap(), addr);
        assert_eq!(get_broadcast_address(addr, 32).unwrap(), addr);
    }
}
