use rtp_parse::with_context::{with_context, Context, WrappedError};

fn passes() -> Result<u8, WrappedError<std::io::Error>> {
    Ok(42)
}

fn fails() -> Result<u8, std::io::Error> {
    Err(std::io::Error::new(std::io::ErrorKind::Other, "Boom!"))
}

#[derive(Debug)]
struct MyStruct {
    value: u8,
}

fn parse_my_struct() -> Result<MyStruct, WrappedError<WrappedError<std::io::Error>>> {
    with_context("MyStruct", || Ok(MyStruct { value: fails().with_context("parsing value")? }))
}

#[test]
fn foo() {
    let result = parse_my_struct();
    let err = result.unwrap_err();
    println!("Error: {}: {}: {}", err.msg, err.cause.msg, err.cause.cause);
    assert_eq!(err.msg, "MyStruct");
    assert_eq!(err.cause.msg, "parsing value");
}

#[test]
fn with_context_passes_values_through() {
    let ok = with_context("outer", passes).unwrap();
    assert_eq!(ok, 42);
    let mapped: Result<MyStruct, WrappedError<()>> = Ok::<MyStruct, ()>(MyStruct { value: 1 }).with_context("x");
    assert_eq!(mapped.unwrap().value, 1);
}
