use mx_yaml::{parse, Json};
use serde_json::{Number, Value};

fn to_value(json: &Json) -> Value {
    match json {
        Json::String(text) => Value::String(text.clone()),
        Json::Int(i) => Value::Number((*i).into()),
        Json::Float(text) => {
            let number: f64 = text.parse().unwrap();
            Value::Number(Number::from_f64(number).unwrap_or_else(|| 0.into()))
        }
        Json::Bool(b) => Value::Bool(*b),
        Json::Array(items) => Value::Array(items.iter().map(to_value).collect()),
        Json::Object(members) => {
            let mut map = serde_json::Map::new();
            for member in members {
                map.insert(member.name.clone(), to_value(&member.value));
            }
            Value::Object(map)
        }
    }
}

#[test]
fn test_json_test_typed_values_to_json() {
    let yaml = r#"
count: 42
price: 19.99
enabled: true
"#;
    let parsed = parse(yaml).unwrap();
    let json = to_value(&parsed.to_json());
    let obj = json.as_object().unwrap();

    assert_eq!(obj.get("count").unwrap().as_i64().unwrap(), 42);
    assert_eq!(obj.get("price").unwrap().as_f64().unwrap(), 19.99);
    assert_eq!(obj.get("enabled").unwrap().as_bool().unwrap(), true);
}

#[test]
fn test_json_test_to_json_basic() {
    let yaml = r#"
name: John
age: 30
hobbies:
  - reading
  - coding
"#;
    let parsed = parse(yaml).unwrap();
    let json = to_value(&parsed.to_json());

    assert!(json.is_object());
    let obj = json.as_object().unwrap();
    assert_eq!(obj.get("name").unwrap(), "John");
    assert_eq!(obj.get("age").unwrap().as_i64().unwrap(), 30);

    let hobbies = obj.get("hobbies").unwrap().as_array().unwrap();
    assert_eq!(hobbies.len(), 2);
    assert_eq!(hobbies[0], "reading");
    assert_eq!(hobbies[1], "coding");
}

#[test]
fn test_json_test_to_json_nested() {
    let yaml = r#"
outer:
  inner:
    value: nested
"#;
    let parsed = parse(yaml).unwrap();
    let json = to_value(&parsed.to_json());

    let json_str = serde_json::to_string(&json).unwrap();
    assert!(json_str.contains("outer"));
    assert!(json_str.contains("inner"));
    assert!(json_str.contains("nested"));
    assert_eq!(json_str, parsed.to_json().to_string());
}

#[test]
fn tests_test_typed_values_to_json() {
    let yaml = r#"
count: 42
price: 19.99
enabled: true
"#;
    let parsed = parse(yaml).unwrap();
    let json = to_value(&parsed.to_json());
    let obj = json.as_object().unwrap();

    assert_eq!(obj.get("count").unwrap().as_i64().unwrap(), 42);
    assert_eq!(obj.get("price").unwrap().as_f64().unwrap(), 19.99);
    assert_eq!(obj.get("enabled").unwrap().as_bool().unwrap(), true);
}

#[test]
fn tests_test_to_json_basic() {
    let yaml = r#"
name: John
age: 30
hobbies:
  - reading
  - coding
"#;
    let parsed = parse(yaml).unwrap();
    let json = to_value(&parsed.to_json());

    assert!(json.is_object());
    let obj = json.as_object().unwrap();
    assert_eq!(obj.get("name").unwrap(), "John");
    assert_eq!(obj.get("age").unwrap().as_i64().unwrap(), 30);

    let hobbies = obj.get("hobbies").unwrap().as_array().unwrap();
    assert_eq!(hobbies.len(), 2);
    assert_eq!(hobbies[0], "reading");
    assert_eq!(hobbies[1], "coding");
}

#[test]
fn tests_test_to_json_nested() {
    let yaml = r#"
outer:
  inner:
    value: nested
"#;
    let parsed = parse(yaml).unwrap();
    let json = to_value(&parsed.to_json());

    let json_str = serde_json::to_string(&json).unwrap();
    assert!(json_str.contains("outer"));
    assert!(json_str.contains("inner"));
    assert!(json_str.contains("nested"));
}

#[test]
fn test_to_mx_basic() {
    let yaml = r#"
+myKey[Display Name](some value):
  foo: bar
"#;
    let parsed = parse(yaml).unwrap();
    let json = to_value(&parsed.to_mx());

    let obj = json.as_object().unwrap();
    let my_key = obj.get("+myKey").unwrap().as_object().unwrap();
    assert_eq!(my_key.get("__name").unwrap(), "Display Name");
    assert_eq!(my_key.get("__value").unwrap(), "some value");
    assert_eq!(my_key.get("foo").unwrap(), "bar");
}

#[test]
fn test_to_mx_without_paren() {
    let yaml = r#"
+settings.config[My Settings]:
  enabled: true
"#;
    let parsed = parse(yaml).unwrap();
    let json = to_value(&parsed.to_mx());

    let obj = json.as_object().unwrap();
    let settings = obj.get("+settings.config").unwrap().as_object().unwrap();
    assert_eq!(settings.get("__name").unwrap(), "My Settings");
    assert!(settings.get("__value").is_none());
    assert_eq!(settings.get("enabled").unwrap().as_bool().unwrap(), true);
}

#[test]
fn test_to_mx_with_special_chars() {
    let yaml = r#"
+app.user@domain[User Name](user://id):
  active: true
"#;
    let parsed = parse(yaml).unwrap();
    let json = to_value(&parsed.to_mx());

    let obj = json.as_object().unwrap();
    let app = obj.get("+app.user@domain").unwrap().as_object().unwrap();
    assert_eq!(app.get("__name").unwrap(), "User Name");
    assert_eq!(app.get("__value").unwrap(), "user://id");
}

#[test]
fn test_to_mx_error_not_object() {
    let yaml = "- item1\n- item2";
    let parsed = parse(yaml).unwrap();
    let json = to_value(&parsed.to_mx());

    let obj = json.as_object().unwrap();
    let error = obj.get("+error").unwrap().as_object().unwrap();
    assert!(error
        .get("__name")
        .unwrap()
        .as_str()
        .unwrap()
        .contains("must be an object"));
}

#[test]
fn test_to_mx_error_invalid_key() {
    let yaml = r#"
invalid_key:
  foo: bar
"#;
    let parsed = parse(yaml).unwrap();
    let json = to_value(&parsed.to_mx());

    let obj = json.as_object().unwrap();
    let error = obj.get("+error").unwrap().as_object().unwrap();
    assert!(error
        .get("__name")
        .unwrap()
        .as_str()
        .unwrap()
        .contains("does not match"));
}

#[test]
fn test_to_mx_colon_inside_brackets() {
    let yaml = r#"
+test.banner[Title: Subtitle](http://example.com):
  foo: bar
"#;
    let parsed = parse(yaml).unwrap();
    let json = to_value(&parsed.to_mx());

    let obj = json.as_object().unwrap();
    let banner = obj.get("+test.banner").unwrap().as_object().unwrap();
    assert_eq!(banner.get("__name").unwrap(), "Title: Subtitle");
    assert_eq!(banner.get("__value").unwrap(), "http://example.com");
    assert_eq!(banner.get("foo").unwrap(), "bar");
}

#[test]
fn test_field_order_preserved_in_json() {
    let yaml = r#"
zebra: 1
alpha: 2
mike: 3
beta: 4
"#;
    let parsed = parse(yaml).unwrap();
    let json = to_value(&parsed.to_json());
    let obj = json.as_object().unwrap();

    let keys: Vec<&String> = obj.keys().collect();
    assert_eq!(keys, vec!["zebra", "alpha", "mike", "beta"]);
}

#[test]
fn test_field_order_preserved_nested() {
    let yaml = r#"
outer:
  zz: first
  aa: second
  mm: third
"#;
    let parsed = parse(yaml).unwrap();
    let json = to_value(&parsed.to_json());
    let outer = json
        .as_object()
        .unwrap()
        .get("outer")
        .unwrap()
        .as_object()
        .unwrap();

    let keys: Vec<&String> = outer.keys().collect();
    assert_eq!(keys, vec!["zz", "aa", "mm"]);
}

#[test]
fn test_field_order_preserved_in_mx() {
    let yaml = r#"
+form[Test Form]:
  zField: value1
  aField: value2
  mField: value3
"#;
    let parsed = parse(yaml).unwrap();
    let json = to_value(&parsed.to_mx());
    let form = json
        .as_object()
        .unwrap()
        .get("+form")
        .unwrap()
        .as_object()
        .unwrap();

    let keys: Vec<&String> = form.keys().collect();
    assert!(keys.contains(&&"zField".to_string()));
    assert!(keys.contains(&&"aField".to_string()));
    assert!(keys.contains(&&"mField".to_string()));

    let field_keys: Vec<&String> = keys
        .iter()
        .filter(|k| !k.starts_with("__"))
        .copied()
        .collect();
    assert_eq!(field_keys, vec!["zField", "aField", "mField"]);
}

#[test]
fn test_utf8_chinese_in_block_scalar_to_json() {
    let yaml = r#"info: |
  你好世界
  这是测试
"#;
    let parsed = parse(yaml).unwrap();
    let json = to_value(&parsed.to_json());
    let obj = json.as_object().unwrap();
    let info = obj.get("info").unwrap().as_str().unwrap();
    assert!(info.contains("你好世界"), "Chinese not in JSON: {}", info);
    assert!(info.contains("这是测试"), "Chinese not in JSON: {}", info);
}

#[test]
fn test_generic_tag_option() {
    let yaml = r#"
user:
  name: Alice
  nickname: !option<string> "Ali"
  age: !option<int> 30
"#;
    let parsed = parse(yaml).unwrap();
    let json = to_value(&parsed.to_json());
    let user = json.get("user").unwrap().as_object().unwrap();

    let nickname = user.get("nickname").unwrap().as_object().unwrap();
    assert_eq!(nickname.get("__type").unwrap(), "option<string>");
    assert_eq!(nickname.get("__value").unwrap(), "Ali");

    let age = user.get("age").unwrap().as_object().unwrap();
    assert_eq!(age.get("__type").unwrap(), "option<int>");
    assert_eq!(age.get("__value").unwrap(), 30);
}

#[test]
fn test_generic_tag_map() {
    let yaml = r#"
settings: !map<string,int>
  timeout: 30
  retries: 3
  max_connections: 100
"#;
    let parsed = parse(yaml).unwrap();
    let json = to_value(&parsed.to_json());
    let settings = json.get("settings").unwrap().as_object().unwrap();

    assert_eq!(settings.get("__type").unwrap(), "map<string,int>");
    assert_eq!(settings.get("timeout").unwrap(), 30);
    assert_eq!(settings.get("retries").unwrap(), 3);
    assert_eq!(settings.get("max_connections").unwrap(), 100);
}

#[test]
fn test_generic_tag_union() {
    let yaml = r#"value: !option<string|int> 42"#;
    let parsed = parse(yaml).unwrap();
    let json = to_value(&parsed.to_json());
    let value = json.get("value").unwrap().as_object().unwrap();
    assert_eq!(value.get("__type").unwrap(), "option<string|int>");
    assert_eq!(value.get("__value").unwrap(), 42);
}
