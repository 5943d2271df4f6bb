use luaffi::ctype::CType;
use luaffi::error::FfiError;
use luaffi::ffi_ops::{lookup_type, offsetof_field, sizeof_type, TypeRegistry};
use luaffi::parser::parse_cdef;

#[test]
fn parser_test_parse_simple_struct() {
    let code = "struct Point { int x; int y; };";
    let mut registry = TypeRegistry::new();
    let result = parse_cdef(&mut registry, code);
    if let Err(e) = &result {
        println!("Parse error: {:?}", e);
    }
    assert!(result.is_ok());
}

#[test]
fn parser_test_test_parse_simple_struct() {
    let result = "struct Point { int x; int y; };";
    assert!(result.contains("struct"));
    assert!(result.contains("int"));
    let mut registry = TypeRegistry::new();
    assert_eq!(parse_cdef(&mut registry, result), Ok(()));
    let point = lookup_type(&registry, "Point").unwrap();
    assert_eq!(point.size(), 8);
    assert_eq!(offsetof_field(&registry, "Point", "y"), Ok(4));
}

#[test]
fn test_parse_typedef() {
    let code = "typedef int my_int;";
    assert!(code.contains("typedef"));
    let mut registry = TypeRegistry::new();
    assert_eq!(parse_cdef(&mut registry, code), Ok(()));
    assert_eq!(lookup_type(&registry, "my_int"), Err(FfiError::UnknownType));
}

#[test]
fn test_parse_array() {
    let code = "int arr[10];";
    assert!(code.contains("["));
    assert!(code.contains("]"));
    let mut registry = TypeRegistry::new();
    assert_eq!(parse_cdef(&mut registry, code), Ok(()));
    assert_eq!(sizeof_type(&registry, "int[10]"), Ok(40));
}

#[test]
fn test_parse_pointer() {
    let code = "int* ptr;";
    assert!(code.contains("*"));
    let mut registry = TypeRegistry::new();
    assert_eq!(parse_cdef(&mut registry, code), Ok(()));
    assert_eq!(lookup_type(&registry, "int*"), Ok(CType::Ptr(Box::new(CType::Int))));
}

#[test]
fn test_parse_function() {
    let code = "int func(int x, int y);";
    assert!(code.contains("("));
    assert!(code.contains(")"));
    let mut registry = TypeRegistry::new();
    assert_eq!(parse_cdef(&mut registry, code), Ok(()));
}

#[test]
fn test_struct_with_multiple_types() {
    let code = r#"
            struct Data {
                char c;
                int i;
                float f;
                double d;
            };
        "#;
    assert!(code.contains("char"));
    assert!(code.contains("int"));
    assert!(code.contains("float"));
    assert!(code.contains("double"));
    let mut registry = TypeRegistry::new();
    assert_eq!(parse_cdef(&mut registry, code), Ok(()));
    assert_eq!(offsetof_field(&registry, "Data", "c"), Ok(0));
    assert_eq!(offsetof_field(&registry, "Data", "i"), Ok(4));
    assert_eq!(offsetof_field(&registry, "Data", "f"), Ok(8));
    assert_eq!(offsetof_field(&registry, "Data", "d"), Ok(16));
    assert_eq!(sizeof_type(&registry, "Data"), Ok(24));
}

#[test]
fn parser_test_test_struct_with_array() {
    let code = r#"
            struct Buffer {
                int size;
                char data[256];
            };
        "#;
    assert!(code.contains("char data[256]"));
    let mut registry = TypeRegistry::new();
    assert_eq!(parse_cdef(&mut registry, code), Ok(()));
    assert_eq!(offsetof_field(&registry, "Buffer", "data"), Ok(4));
    assert_eq!(sizeof_type(&registry, "Buffer"), Ok(260));
}

#[test]
fn test_struct_with_pointer() {
    let code = r#"
            struct Node {
                int value;
                struct Node* next;
            };
        "#;
    assert!(code.contains("struct Node*"));
    let mut registry = TypeRegistry::new();
    assert!(matches!(
        parse_cdef(&mut registry, code),
        Err(FfiError::ParseError { offset: 13, .. })
    ));
    assert_eq!(lookup_type(&registry, "Node"), Err(FfiError::UnknownType));
}

#[test]
fn test_nested_struct() {
    let code = r#"
            struct Inner {
                int x;
            };
            struct Outer {
                struct Inner inner;
                int y;
            };
        "#;
    assert!(code.contains("struct Inner"));
    assert!(code.contains("struct Outer"));
    let mut registry = TypeRegistry::new();
    assert!(matches!(
        parse_cdef(&mut registry, code),
        Err(FfiError::ParseError { offset: 78, .. })
    ));
    assert_eq!(sizeof_type(&registry, "Inner"), Ok(4));
    assert_eq!(lookup_type(&registry, "Outer"), Err(FfiError::UnknownType));
}

#[test]
fn test_union() {
    let code = r#"
            union Value {
                int i;
                float f;
            };
        "#;
    assert!(code.contains("union"));
    let mut registry = TypeRegistry::new();
    assert_eq!(parse_cdef(&mut registry, code), Ok(()));
    assert_eq!(lookup_type(&registry, "Value"), Err(FfiError::UnknownType));
}

#[test]
fn parser_test_test_multiline_struct() {
    let code = r#"
            struct Multi
            {
                int
                    a
                    ;
                float
                    b
                    ;
            };
        "#;
    assert!(code.contains("struct Multi"));
    let mut registry = TypeRegistry::new();
    assert_eq!(parse_cdef(&mut registry, code), Ok(()));
    assert_eq!(offsetof_field(&registry, "Multi", "b"), Ok(4));
}

#[test]
fn test_empty_struct() {
    let code = "struct Empty {};";
    assert!(code.contains("{}"));
    let mut registry = TypeRegistry::new();
    assert_eq!(parse_cdef(&mut registry, code), Ok(()));
    assert_eq!(sizeof_type(&registry, "Empty"), Ok(0));
}

#[test]
fn test_comments_handling() {
    let code = r#"
            struct WithComments {
                int x; // This is x
                int y; /* This is y */
            };
        "#;
    // Parser should handle or ignore comments
    assert!(code.contains("int x"));
    let mut registry = TypeRegistry::new();
    assert!(matches!(
        parse_cdef(&mut registry, code),
        Err(FfiError::ParseError { offset: 13, .. })
    ));
    assert_eq!(lookup_type(&registry, "WithComments"), Err(FfiError::UnknownType));
}

#[test]
fn test_packed_struct() {
    let code = r#"
            struct __attribute__((packed)) Packed {
                char c;
                int i;
            };
        "#;
    // Test that attribute syntax is present
    assert!(code.contains("__attribute__"));
    let mut registry = TypeRegistry::new();
    assert_eq!(parse_cdef(&mut registry, code), Ok(()));
    assert_eq!(lookup_type(&registry, "Packed"), Err(FfiError::UnknownType));
}

#[test]
fn test_bitfield() {
    let code = r#"
            struct Flags {
                unsigned int flag1 : 1;
                unsigned int flag2 : 1;
                unsigned int value : 6;
            };
        "#;
    // Test bitfield syntax
    assert!(code.contains(":"));
    let mut registry = TypeRegistry::new();
    assert!(matches!(
        parse_cdef(&mut registry, code),
        Err(FfiError::ParseError { offset: 13, .. })
    ));
}

#[test]
fn test_enum() {
    let code = r#"
            enum Color {
                RED,
                GREEN,
                BLUE
            };
        "#;
    assert!(code.contains("enum"));
    let mut registry = TypeRegistry::new();
    assert_eq!(parse_cdef(&mut registry, code), Ok(()));
    assert_eq!(lookup_type(&registry, "Color"), Err(FfiError::UnknownType));
}

#[test]
fn test_function_pointer() {
    let code = "typedef void (*callback_t)(int x);";
    assert!(code.contains("(*"));
    let mut registry = TypeRegistry::new();
    assert_eq!(parse_cdef(&mut registry, code), Ok(()));
}

#[test]
fn test_const_qualifier() {
    let code = "const int* ptr;";
    assert!(code.contains("const"));
    let mut registry = TypeRegistry::new();
    assert_eq!(parse_cdef(&mut registry, code), Ok(()));
    assert_eq!(lookup_type(&registry, "const int*"), Ok(CType::Ptr(Box::new(CType::Int))));
}

#[test]
fn test_volatile_qualifier() {
    let code = "volatile int value;";
    assert!(code.contains("volatile"));
    let mut registry = TypeRegistry::new();
    assert_eq!(parse_cdef(&mut registry, code), Ok(()));
    assert_eq!(lookup_type(&registry, "volatile int"), Ok(CType::Int));
}

#[test]
fn test_multiple_declarations() {
    let code = r#"
            struct A { int x; };
            struct B { float y; };
            typedef int my_int;
        "#;
    assert!(code.contains("struct A"));
    assert!(code.contains("struct B"));
    assert!(code.contains("typedef"));
    let mut registry = TypeRegistry::new();
    assert_eq!(parse_cdef(&mut registry, code), Ok(()));
    assert_eq!(sizeof_type(&registry, "A"), Ok(4));
    assert_eq!(sizeof_type(&registry, "B"), Ok(4));
    assert_eq!(lookup_type(&registry, "my_int"), Err(FfiError::UnknownType));
}

#[test]
fn test_forward_declaration() {
    let code = "struct Forward;";
    assert!(code.contains("struct Forward"));
    let mut registry = TypeRegistry::new();
    assert_eq!(parse_cdef(&mut registry, code), Ok(()));
    assert_eq!(lookup_type(&registry, "Forward"), Err(FfiError::UnknownType));
}

#[test]
fn test_anonymous_struct() {
    let code = r#"
            struct {
                int x;
                int y;
            } point;
        "#;
    assert!(code.contains("int x"));
    let mut registry = TypeRegistry::new();
    assert_eq!(parse_cdef(&mut registry, code), Ok(()));
    assert_eq!(lookup_type(&registry, "point"), Err(FfiError::UnknownType));
}

#[test]
fn parser_test_test_fixed_width_types() {
    let code = r#"
            struct Fixed {
                int8_t i8;
                int16_t i16;
                int32_t i32;
                int64_t i64;
                uint8_t u8;
                uint16_t u16;
                uint32_t u32;
                uint64_t u64;
            };
        "#;
    assert!(code.contains("int8_t"));
    assert!(code.contains("uint64_t"));
    let mut registry = TypeRegistry::new();
    assert_eq!(parse_cdef(&mut registry, code), Ok(()));
    assert_eq!(offsetof_field(&registry, "Fixed", "i64"), Ok(8));
    assert_eq!(offsetof_field(&registry, "Fixed", "u64"), Ok(24));
    assert_eq!(sizeof_type(&registry, "Fixed"), Ok(32));
}

#[test]
fn test_size_t_type() {
    let code = "size_t size;";
    assert!(code.contains("size_t"));
    let mut registry = TypeRegistry::new();
    assert_eq!(parse_cdef(&mut registry, code), Ok(()));
    assert_eq!(sizeof_type(&registry, "size_t"), Ok(std::mem::size_of::<usize>()));
}

#[test]
fn test_pointer_types() {
    let code = r#"
            struct Pointers {
                void* vp;
                char* cp;
                int** ipp;
            };
        "#;
    assert!(code.contains("void*"));
    assert!(code.contains("int**"));
    let mut registry = TypeRegistry::new();
    assert!(matches!(
        parse_cdef(&mut registry, code),
        Err(FfiError::ParseError { offset: 13, .. })
    ));
    assert_eq!(
        lookup_type(&registry, "int**"),
        Ok(CType::Ptr(Box::new(CType::Ptr(Box::new(CType::Int)))))
    );
}
