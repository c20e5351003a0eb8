use xross::metadata::{
    is_structurally_compatible, XrossDefinition, XrossStruct, XrossType,
};
use xross::ordinal::{cardinal_to_ordinal, ordinal_name};
use xross::symbols::{build_symbol_base, get_path_by_signature};

#[test]
fn ordinal_small_words() {
    assert_eq!(ordinal_name(0), "zeroth");
    assert_eq!(ordinal_name(1), "first");
    assert_eq!(ordinal_name(3), "third");
    assert_eq!(ordinal_name(12), "twelfth");
    assert_eq!(ordinal_name(20), "twentieth");
}

#[test]
fn ordinal_compound_words() {
    assert_eq!(ordinal_name(21), "twenty-first");
    assert_eq!(ordinal_name(45), "forty-fifth");
    assert_eq!(ordinal_name(99), "ninety-ninth");
    assert_eq!(ordinal_name(30), "thirty");
    assert_eq!(ordinal_name(100), "one_hundredth");
    assert_eq!(ordinal_name(123), "one_hundred_twenty-third");
    assert_eq!(ordinal_name(1000), "one_thousandth");
    assert_eq!(ordinal_name(2000), "second_thousandth");
    assert_eq!(ordinal_name(1_000_000), "one_millionth");
    assert_eq!(ordinal_name(2_000_000), "second_millionth");
    assert_eq!(ordinal_name(1_000_001), "one_million_first");
}

#[test]
fn cardinal_part_reuses_base_ordinals() {
    assert_eq!(cardinal_to_ordinal(2), "second");
    assert_eq!(cardinal_to_ordinal(21), "twenty-first");
    assert_eq!(cardinal_to_ordinal(23), "twenty-third");
    // a part that ends in another ordinal word is trimmed and closed
    assert_eq!(cardinal_to_ordinal(25), "twenty-th");
}

#[test]
fn symbol_base_without_package() {
    assert_eq!(build_symbol_base("mycrate", "", "MyType"), "mycrate_my_type");
}

#[test]
fn symbol_base_with_dotted_package() {
    assert_eq!(
        build_symbol_base("mycrate", "com.app.sub", "HTTPServer"),
        "mycrate_com_app_sub_http_server"
    );
}

#[test]
fn signature_file_name() {
    assert_eq!(
        get_path_by_signature("target/xross", "pkg.Widget"),
        "target/xross/pkg.Widget.json"
    );
}

fn plain_struct(package: &str, name: &str, fields: usize) -> XrossDefinition {
    let mut fs = Vec::new();
    for i in 0..fields {
        fs.push(xross::metadata::XrossField {
            name: format!("f{}", i),
            ty: XrossType::I32,
            docs: Vec::new(),
            safety: xross::metadata::ThreadSafety::Lock,
        });
    }
    XrossDefinition::Struct(XrossStruct {
        signature: format!("{}.{}", package, name),
        symbol_prefix: String::new(),
        package_name: package.to_string(),
        name: name.to_string(),
        fields: fs,
        methods: Vec::new(),
        docs: Vec::new(),
    })
}

#[test]
fn structural_compatibility() {
    let a = plain_struct("app", "Widget", 2);
    let b = plain_struct("app", "Widget", 2);
    let c = plain_struct("app", "Widget", 3);
    let d = plain_struct("other", "Widget", 2);
    assert!(is_structurally_compatible(&a, &b));
    assert!(!is_structurally_compatible(&a, &c));
    assert!(!is_structurally_compatible(&a, &d));
}

#[test]
fn boundary_type_layout() {
    assert_eq!(XrossType::Void.size(), 0);
    assert_eq!(XrossType::Bool.size(), 1);
    assert_eq!(XrossType::U16.size(), 2);
    assert_eq!(XrossType::I32.size(), 4);
    assert_eq!(XrossType::F64.size(), 8);
    let s = XrossType::Struct {
        name: "Node".to_string(),
        symbol_prefix: "p".to_string(),
        is_reference: true,
    };
    assert_eq!(s.size(), 8);
    assert!(s.is_reference());
    let sl = XrossType::Slice { element_type: Box::new(XrossType::I64), is_reference: false };
    assert_eq!(sl.size(), 16);
    assert_eq!(sl.align(), 8);
    assert!(!sl.is_reference());
    assert_eq!(XrossType::I32.layout_member(), "JAVA_INT");
    assert_eq!(XrossType::U16.layout_member(), "JAVA_CHAR");
    assert_eq!(XrossType::String.layout_member(), "ADDRESS");
    assert!(!XrossType::Pointer.is_reference());
    assert_eq!(XrossType::Void.align(), 1);
}
