use lightml::{Document, Lexer};

fn as_lines(content: &str) -> String {
    let mut reader = Lexer::new(content);
    let result = Document::from_reader(&mut reader);
    let result = result.map(|document| document.html_element);
    format!("{result:#?}")
}

#[test]
fn spec_elements() {
    let case = "<h1>Hello world</h1>\n";
    let expected = "Ok(\n    Element {\n        tag_name: \"h1\",\n        attributes: [],\n        children: Children(\n            [\n                TextNode(\n                    \"Hello world\",\n                ),\n            ],\n        ),\n    },\n)";
    assert_eq!(as_lines(case).trim_end(), expected);
}

#[test]
fn spec_self_closing() {
    let case = "<div>\n    <img src=\"\">\n</div>\n";
    let expected = "Ok(\n    Element {\n        tag_name: \"div\",\n        attributes: [],\n        children: Children(\n            [\n                Element(\n                    Element {\n                        tag_name: \"img\",\n                        attributes: [\n                            Attribute {\n                                key: \"src\",\n                                value: \"\",\n                            },\n                        ],\n                        children: SelfClosing,\n                    },\n                ),\n            ],\n        ),\n    },\n)";
    assert_eq!(as_lines(case).trim_end(), expected);
}

#[test]
fn spec_attributes() {
    let case = "<h1 data-x class=\"x\">Hello world</h1>\n";
    let expected = "Ok(\n    Element {\n        tag_name: \"h1\",\n        attributes: [\n            Attribute {\n                key: \"data-x\",\n                value: \"\",\n            },\n            Attribute {\n                key: \"class\",\n                value: \"x\",\n            },\n        ],\n        children: Children(\n            [\n                TextNode(\n                    \"Hello world\",\n                ),\n            ],\n        ),\n    },\n)";
    assert_eq!(as_lines(case).trim_end(), expected);
}

#[test]
fn spec_empty_attributes() {
    let case = "<h1 item>Hello world</h1>\n";
    let expected = "Ok(\n    Element {\n        tag_name: \"h1\",\n        attributes: [\n            Attribute {\n                key: \"item\",\n                value: \"\",\n            },\n        ],\n        children: Children(\n            [\n                TextNode(\n                    \"Hello world\",\n                ),\n            ],\n        ),\n    },\n)";
    assert_eq!(as_lines(case).trim_end(), expected);
}

#[test]
fn spec_attribute_value_delimeters() {
    let case = "<h1 item=something>Hello world</h1>\n";
    let expected = "Ok(\n    Element {\n        tag_name: \"h1\",\n        attributes: [\n            Attribute {\n                key: \"item\",\n                value: \"something\",\n            },\n        ],\n        children: Children(\n            [\n                TextNode(\n                    \"Hello world\",\n                ),\n            ],\n        ),\n    },\n)";
    assert_eq!(as_lines(case).trim_end(), expected);
}

#[test]
fn spec_element_children() {
    let case = "<div>\n\t<h1>Hello ya!</h1>\n</div>\n";
    let expected = "Ok(\n    Element {\n        tag_name: \"div\",\n        attributes: [],\n        children: Children(\n            [\n                Element(\n                    Element {\n                        tag_name: \"h1\",\n                        attributes: [],\n                        children: Children(\n                            [\n                                TextNode(\n                                    \"Hello ya!\",\n                                ),\n                            ],\n                        ),\n                    },\n                ),\n            ],\n        ),\n    },\n)";
    assert_eq!(as_lines(case).trim_end(), expected);
}

#[test]
fn spec_script_tag() {
    let case = "<div>\n\t<script>\n\t\tconst x = `<h1>Hiya</h1>`;\n\t</script>\n</div>\n";
    let expected = "Ok(\n    Element {\n        tag_name: \"div\",\n        attributes: [],\n        children: Children(\n            [\n                Element(\n                    Element {\n                        tag_name: \"script\",\n                        attributes: [],\n                        children: Literal(\n                            \"\\n\\t\\tconst x = `<h1>Hiya</h1>`;\\n\\t\",\n                        ),\n                    },\n                ),\n            ],\n        ),\n    },\n)";
    assert_eq!(as_lines(case).trim_end(), expected);
}

#[test]
fn spec_custom_elements() {
    let case = "<element-x></element-x>\n";
    let expected = "Ok(\n    Element {\n        tag_name: \"element-x\",\n        attributes: [],\n        children: Children(\n            [],\n        ),\n    },\n)";
    assert_eq!(as_lines(case).trim_end(), expected);
}

#[test]
fn spec_paragraph_elements() {
    let case = "<div>\n    <p>Hiya\n    <p>Hello\n</div>\n";
    let expected = "Ok(\n    Element {\n        tag_name: \"div\",\n        attributes: [],\n        children: Children(\n            [\n                Element(\n                    Element {\n                        tag_name: \"p\",\n                        attributes: [],\n                        children: Children(\n                            [\n                                TextNode(\n                                    \"Hiya\\n    \",\n                                ),\n                            ],\n                        ),\n                    },\n                ),\n                Element(\n                    Element {\n                        tag_name: \"p\",\n                        attributes: [],\n                        children: Children(\n                            [\n                                TextNode(\n                                    \"Hello\\n\",\n                                ),\n                            ],\n                        ),\n                    },\n                ),\n            ],\n        ),\n    },\n)";
    assert_eq!(as_lines(case).trim_end(), expected);
}

#[test]
fn spec_list_elements() {
    let case = "<ul>\n    <li>Hiya\n    <li>Hello\n</ul>\n";
    let expected = "Ok(\n    Element {\n        tag_name: \"ul\",\n        attributes: [],\n        children: Children(\n            [\n                Element(\n                    Element {\n                        tag_name: \"li\",\n                        attributes: [],\n                        children: Children(\n                            [\n                                TextNode(\n                                    \"Hiya\\n    \",\n                                ),\n                            ],\n                        ),\n                    },\n                ),\n                Element(\n                    Element {\n                        tag_name: \"li\",\n                        attributes: [],\n                        children: Children(\n                            [\n                                TextNode(\n                                    \"Hello\\n\",\n                                ),\n                            ],\n                        ),\n                    },\n                ),\n            ],\n        ),\n    },\n)";
    assert_eq!(as_lines(case).trim_end(), expected);
}

#[test]
fn spec_doctype_tag() {
    let case = "<!doCType html>\n<html></html>\n";
    let expected = "Ok(\n    Element {\n        tag_name: \"html\",\n        attributes: [],\n        children: Children(\n            [],\n        ),\n    },\n)";
    assert_eq!(as_lines(case).trim_end(), expected);
}

#[test]
fn spec_comment_in_structure() {
    let case = "<p>\n    <!-- i am a comment -->\n</p>\n";
    let expected = "Ok(\n    Element {\n        tag_name: \"p\",\n        attributes: [],\n        children: Children(\n            [\n                Comment(\n                    \" i am a comment \",\n                ),\n            ],\n        ),\n    },\n)";
    assert_eq!(as_lines(case).trim_end(), expected);
}

#[test]
fn spec_weird_comments() {
    let case = "<div><!--My favorite operators are > and <!--></div>\n";
    let expected = "Ok(\n    Element {\n        tag_name: \"div\",\n        attributes: [],\n        children: Children(\n            [\n                Comment(\n                    \"My favorite operators are > and <!\",\n                ),\n            ],\n        ),\n    },\n)";
    assert_eq!(as_lines(case).trim_end(), expected);
}

#[test]
fn spec_whitespace() {
    let case = "<p>This is some <strong>text</strong> <em>here</em></p>\n";
    let expected = "Ok(\n    Element {\n        tag_name: \"p\",\n        attributes: [],\n        children: Children(\n            [\n                TextNode(\n                    \"This is some \",\n                ),\n                Element(\n                    Element {\n                        tag_name: \"strong\",\n                        attributes: [],\n                        children: Children(\n                            [\n                                TextNode(\n                                    \"text\",\n                                ),\n                            ],\n                        ),\n                    },\n                ),\n                TextNode(\n                    \" \",\n                ),\n                Element(\n                    Element {\n                        tag_name: \"em\",\n                        attributes: [],\n                        children: Children(\n                            [\n                                TextNode(\n                                    \"here\",\n                                ),\n                            ],\n                        ),\n                    },\n                ),\n            ],\n        ),\n    },\n)";
    assert_eq!(as_lines(case).trim_end(), expected);
}
