use luaffi::ctype::CType;

#[test]
fn test_vla_basic_functionality() {
    let vla_int = CType::VLA(Box::new(CType::Int));
    
    assert_eq!(vla_int.size(), 0);
    
    assert_eq!(vla_int.alignment(), CType::Int.alignment());
}

#[test]
fn test_vla_with_various_types() {
    let types = vec![
        ("int", CType::Int),
        ("float", CType::Float),
        ("double", CType::Double),
        ("char", CType::Char),
    ];

    for (name, ctype) in types {
        let vla = CType::VLA(Box::new(ctype.clone()));
        assert_eq!(vla.size(), 0, "VLA of {} should have size 0", name);
        assert_eq!(
            vla.alignment(),
            ctype.alignment(),
            "VLA of {} should have same alignment as element",
            name
        );
    }
}

#[test]
fn vla_test_test_vla_with_pointer() {
    let void_ptr = CType::Ptr(Box::new(CType::Void));
    let vla_ptr = CType::VLA(Box::new(void_ptr.clone()));
    
    assert_eq!(vla_ptr.size(), 0);
    assert_eq!(vla_ptr.alignment(), void_ptr.alignment());
}

#[test]
fn test_vla_clone() {
    let vla = CType::VLA(Box::new(CType::Int));
    let cloned = vla.clone();
    
    assert_eq!(vla, cloned);
}

#[test]
fn test_vla_equality() {
    let vla1 = CType::VLA(Box::new(CType::Int));
    let vla2 = CType::VLA(Box::new(CType::Int));
    let vla3 = CType::VLA(Box::new(CType::Float));
    
    assert_eq!(vla1, vla2);
    assert_ne!(vla1, vla3);
}

#[test]
fn test_vla_vs_array() {
    let vla = CType::VLA(Box::new(CType::Int));
    let array = CType::Array(Box::new(CType::Int), 10);
    
    assert_eq!(vla.size(), 0);
    
    assert_eq!(array.size(), std::mem::size_of::<i32>() * 10);
    
    assert_eq!(vla.alignment(), array.alignment());
}

#[test]
fn test_nested_vla() {
    let vla = CType::VLA(Box::new(CType::Int));
    let ptr_to_vla = CType::Ptr(Box::new(vla));
    
    assert_eq!(ptr_to_vla.size(), std::mem::size_of::<usize>());
}

#[test]
fn vla_test_test_vla_with_const_qualifier() {
    
    let vla_ptr = CType::VLA(Box::new(CType::Ptr(Box::new(CType::Char))));
    assert_eq!(vla_ptr.size(), 0);
}

#[test]
fn test_vla_with_volatile_qualifier() {
    
    let vla_int = CType::VLA(Box::new(CType::Int));
    assert_eq!(vla_int.size(), 0);
    assert_eq!(vla_int.alignment(), CType::Int.alignment());
}
