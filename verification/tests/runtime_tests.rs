use sx_protocol::codec::encode_binary;
use sx_protocol::decode::DecodeStats;
use sx_protocol::path::SxPath;
use sx_protocol::runtime::{SxArrayView, SxMessageView, SxObjectView, SxStringView, SxTableView, SxTypedArrayView};
use sx_protocol::error::SxErrorCode;
use sx_protocol::value::{SxColumn, SxTable, SxTypedArray, SxValue};

fn object_with(pairs: Vec<(&str, SxValue)>) -> SxValue {
    SxValue::object_from_pairs(pairs.into_iter().map(|(k, v)| (k.to_string(), v)).collect()).unwrap()
}

#[test]
fn view_materialize_and_hot() {
    let value = object_with(vec![("tenant", SxValue::String("acme".to_string()))]);
    let bin = encode_binary(&value, None, None).unwrap();
    let view = SxMessageView::from_binary(&bin);
    let mut stats = DecodeStats::default();
    let hot = view.hot_field("tenant", &mut stats).unwrap();
    assert_eq!(hot, Some(SxValue::String("acme".to_string())));
    assert_eq!(stats.full_decode_calls, 1);
}

#[test]
fn project_paths_into_an_object() {
    let value = object_with(vec![
        ("user", object_with(vec![("name", SxValue::String("Asha".to_string()))])),
        ("items", SxValue::Array(vec![SxValue::I64(7), SxValue::I64(8)])),
    ]);
    let bin = encode_binary(&value, None, None).unwrap();
    let view = SxMessageView::from_binary(&bin);
    let mut stats = DecodeStats::default();
    let paths = vec![
        SxPath::parse("/user/name").unwrap(),
        SxPath::parse("/items/1").unwrap(),
        SxPath::parse("/missing").unwrap(),
    ];
    let out = view.project(&paths, &mut stats).unwrap();
    assert_eq!(
        out,
        object_with(vec![
            ("/items/1", SxValue::I64(8)),
            ("/user/name", SxValue::String("Asha".to_string())),
        ])
    );
}

#[test]
fn value_views() {
    let obj = object_with(vec![("k", SxValue::Bool(true))]);
    let ov = SxObjectView::new(&obj).unwrap();
    assert_eq!(ov.get("k"), Some(&SxValue::Bool(true)));
    assert!(ov.get("z").is_none());
    assert!(SxObjectView::new(&SxValue::Null).is_none());
    let arr = SxValue::Array(vec![SxValue::U8(1)]);
    let av = SxArrayView::new(&arr).unwrap();
    assert_eq!(av.len(), 1);
    assert_eq!(av.get(0), Some(&SxValue::U8(1)));
    assert!(av.get(1).is_none());
    let s = SxValue::String("hi".to_string());
    assert_eq!(SxStringView::new(&s).unwrap().as_str(), "hi");
    let t = SxValue::TypedArray(SxTypedArray::I32(vec![1, 2]));
    assert_eq!(SxTypedArrayView::new(&t).unwrap().value(), &SxTypedArray::I32(vec![1, 2]));
}

fn sample_table() -> SxValue {
    SxValue::Table(SxTable {
        columns: vec![
            ("active".to_string(), SxColumn::Typed(SxTypedArray::Bool(vec![true, false, true]))),
            (
                "name".to_string(),
                SxColumn::Values(vec![
                    SxValue::String("a".to_string()),
                    SxValue::String("b".to_string()),
                    SxValue::String("a".to_string()),
                ]),
            ),
            (
                "tag".to_string(),
                SxColumn::Values(vec![SxValue::Bool(true), SxValue::Bool(false), SxValue::Null]),
            ),
        ],
    })
}

#[test]
fn table_filters_and_selection() {
    let t = sample_table();
    let view = SxTableView::new(&t).unwrap();
    let eq = view.filter_eq("name", &SxValue::String("a".to_string())).unwrap();
    assert_eq!(
        eq.columns[1],
        (
            "name".to_string(),
            SxColumn::Values(vec![SxValue::String("a".to_string()), SxValue::String("a".to_string())])
        )
    );
    assert_eq!(eq.columns[0].1, SxColumn::Typed(SxTypedArray::Bool(vec![true, false, true])));
    let b = view.filter_bool("tag", true).unwrap();
    assert_eq!(b.columns[2].1, SxColumn::Values(vec![SxValue::Bool(true)]));
    assert_eq!(view.filter_eq("nope", &SxValue::Null).unwrap_err().code, SxErrorCode::InvalidPath);
    let sel = view.select_columns(&["tag", "nope", "active"]);
    let names: Vec<&str> = sel.columns.iter().map(|(n, _)| n.as_str()).collect();
    assert_eq!(names, vec!["active", "tag"]);
}

#[test]
fn short_column_is_an_invalid_length() {
    let t = SxValue::Table(SxTable {
        columns: vec![
            ("a".to_string(), SxColumn::Values(vec![SxValue::I64(1), SxValue::I64(2)])),
            ("b".to_string(), SxColumn::Values(vec![SxValue::I64(1)])),
        ],
    });
    let view = SxTableView::new(&t).unwrap();
    assert_eq!(view.filter_eq("b", &SxValue::I64(1)).unwrap_err().code, SxErrorCode::InvalidLength);
}
