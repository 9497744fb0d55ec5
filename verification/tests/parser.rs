use rand::rngs::ThreadRng;
use rand::RngExt;
use valkey_resp::parser::RespParser;
use valkey_resp::parser::RespValue;

fn get_reader(input: String) -> RespParser {
    RespParser::new(input.into_bytes())
}

fn get_integer(rng: &mut ThreadRng) -> (i64, String) {
    let integer = rng.random_range(i64::MIN..i64::MAX);
    (integer, format!(":{}\r\n", integer))
}

fn get_simple_string(rng: &mut ThreadRng) -> (String, String) {
    let msg = (0..1000).map(|_| char::from(rng.random_range(32..126)));
    let msg_string: String = msg.collect();
    (msg_string.clone(), format!("+{}\r\n", msg_string))
}

fn get_bulk_string(rng: &mut ThreadRng) -> (String, String) {
    let msg = (0..1000).map(|_| char::from(rng.random_range(0..126)));
    let msg_string: String = msg.collect();
    (
        msg_string.clone(),
        format!("${}\r\n{}\r\n", msg_string.len(), msg_string),
    )
}

#[test]
fn reading() {
    let mut reader = get_reader("test input here\r\n".to_owned());

    assert_eq!("test input here", reader.read_line());
}

#[test]
fn parse_integer() {
    let mut rng = rand::rng();

    for _ in 0..1_000 {
        let (integer, input) = get_integer(&mut rng);
        let mut reader = get_reader(input);

        let input = reader.parse_input();
        match input {
            RespValue::Integer(val) => assert_eq!(integer, val),
            _ => panic!("Incorrect parsed type {:?}", input),
        }
    }
}

#[test]
fn parse_simple_string() {
    let mut rng = rand::rng();

    for _ in 0..1_000 {
        let (msg, input) = get_simple_string(&mut rng);
        let mut reader = get_reader(input);
        match reader.parse_input() {
            RespValue::SimpleString(val) => assert_eq!(msg, val),
            _ => panic!("Incorrect parsed type"),
        }
    }
}

#[test]
fn parse_bulk_string() {
    let mut rng = rand::rng();

    for _ in 0..1_000 {
        let (msg, input) = get_bulk_string(&mut rng);

        let mut reader = get_reader(input);
        match reader.parse_input() {
            RespValue::BulkString(val) => assert_eq!(msg, val),
            _ => panic!("Incorrect parsed type"),
        }
    }

    let msg = format!("$-1\r\n\r\n");
    let mut reader = get_reader(msg);
    match reader.parse_input() {
        RespValue::NullBulkString => {}
        _ => panic!("Incorrect parsed type"),
    }
}

#[test]
fn parse_array() {
    let mut rng = rand::rng();
    let mut values = Vec::new();
    let mut items = Vec::new();

    for _ in 0..1_000 {
        let choice = rng.random_range(0..3);

        match choice {
            1 => {
                let (integer, input) = get_integer(&mut rng);
                values.push(integer.to_string());
                items.push(input);
            }
            2 => {
                let (msg, input) = get_simple_string(&mut rng);
                values.push(msg);
                items.push(input);
            }
            3 => {
                let (msg, input) = get_bulk_string(&mut rng);
                values.push(msg);
                items.push(input);
            }
            _ => continue,
        }
    }

    let input = format!("*{}\r\n{}", values.len(), items.join("\r\n"));
    let mut reader = get_reader(input);
    let output = reader.parse_input();

    if let RespValue::Array(array_values) = output {
        for (i, value) in array_values.iter().enumerate() {
            let str_value = match value {
                RespValue::SimpleString(val) => val,
                RespValue::BulkString(val) => &val,
                RespValue::Integer(val) => &val.to_string(),
                _ => {
                    panic!("bad type {:?}", value);
                }
            };

            assert_eq!(&values[i], str_value);
        }
    } else {
        panic!("Not an Array");
    }
}
