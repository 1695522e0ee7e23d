use extractor::package::stream::{Indent, Stream, DOWN_SYMBOL, ELL_SYMBOL, TEE_SYMBOL};

#[test]
fn expected_indentation_outputs() {
    let mut stream = Stream::new();
    let mut expected_stream = String::new();

    stream.write_line("Test1", false);
    expected_stream.push_str("Test1");
    assert_eq!(stream.stream, expected_stream);

    stream.write_line("Test2", false);
    expected_stream.push_str("\nTest2");
    assert_eq!(stream.stream, expected_stream);

    stream.indents.push(Indent::Line);
    stream.write_line("Test3", false);
    expected_stream.push_str(&format!("\n{TEE_SYMBOL}Test3"));
    assert_eq!(stream.stream, expected_stream);

    stream.write_line("Test4", false);
    expected_stream.push_str(&format!("\n{TEE_SYMBOL}Test4"));
    assert_eq!(stream.stream, expected_stream);

    stream.indents.push(Indent::Line);
    stream.write_line("Test5", false);
    expected_stream.push_str(&format!("\n{DOWN_SYMBOL}{TEE_SYMBOL}Test5"));
    assert_eq!(stream.stream, expected_stream);

    stream.write_line("Test6", true);
    expected_stream.push_str(&format!("\n{DOWN_SYMBOL}{ELL_SYMBOL}Test6"));
    assert_eq!(stream.stream, expected_stream);

    stream.indents.pop();
    stream.write_line("Test7", false);
    expected_stream.push_str(&format!("\n{TEE_SYMBOL}Test7"));
    assert_eq!(stream.stream, expected_stream);

    stream.indents.push(Indent::Line);
    stream.write_line("Test8", true);
    expected_stream.push_str(&format!("\n{DOWN_SYMBOL}{ELL_SYMBOL}Test8"));
    assert_eq!(stream.stream, expected_stream);
}
