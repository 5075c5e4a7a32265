use jsonnet_bytecode::chunk::Value;
use jsonnet_bytecode::format_spec::FormatVals;
use jsonnet_bytecode::formatting::{format_string, FloatQuery};
use jsonnet_bytecode::memory_manager::MemoryManager;

fn to_int(b: u64) -> i64 {
    f64::from_bits(b) as i64
}

fn render(q: FloatQuery) -> String {
    match q {
        FloatQuery::Display(b) => {
            let n = f64::from_bits(b);
            if n.fract() == 0.0 && n >= i64::MIN as f64 && n <= i64::MAX as f64 {
                format!("{}", n as i64)
            } else {
                format!("{}", n)
            }
        }
        FloatQuery::Fixed(b, p, alt) => {
            let mut s = format!("{:.prec$}", f64::from_bits(b), prec = p);
            if alt && !s.contains('.') {
                s.push('.');
            }
            s
        }
        FloatQuery::Exponent(b, p, upper, _) => {
            let s = format!("{:.prec$e}", f64::from_bits(b), prec = p);
            if upper {
                s.to_uppercase()
            } else {
                s
            }
        }
        FloatQuery::General(b, _, _, _) => format!("{}", f64::from_bits(b)),
    }
}

fn num(n: f64) -> Value {
    Value::Number(n.to_bits())
}

fn fmt(mm: &MemoryManager, f: &str, vals: &FormatVals) -> Result<String, String> {
    format_string(f, vals, mm, &(0..1), "t.jsonnet", &to_int, &render).map_err(|e| e.message)
}

#[test]
fn format_integers_and_padding() {
    let mm = MemoryManager::new();
    let vals = FormatVals::Array(vec![num(42.0), num(-7.9), num(255.0)]);
    assert_eq!(fmt(&mm, "%5d|%-4d|%x", &vals).unwrap(), "   42|-7  |ff");
    let vals = FormatVals::Array(vec![num(5.0), num(3.0)]);
    assert_eq!(fmt(&mm, "%05d%%%#o", &vals).unwrap(), "00005%03");
}

#[test]
fn format_star_width_and_precision() {
    let mm = MemoryManager::new();
    let vals = FormatVals::Array(vec![num(-6.0), num(12.0), num(2.0), num(3.14159)]);
    assert_eq!(fmt(&mm, "%*d|%.*f", &vals).unwrap(), "12    |3.14");
}

#[test]
fn format_strings_and_structures() {
    let mut mm = MemoryManager::new();
    let s = Value::String(mm.allocate_string("hi").index);
    let arr = Value::Array(mm.allocate_array(vec![s, num(1.5), Value::Null]).index);
    let vals = FormatVals::Array(vec![s, arr, Value::Boolean(true)]);
    assert_eq!(fmt(&mm, "[%4s] %s %.2s", &vals).unwrap(), "[  hi] [\"hi\", 1.5, null] tr");
    let vals = FormatVals::Single(s);
    assert_eq!(fmt(&mm, "%c!", &vals).unwrap(), "h!");
}

#[test]
fn format_named_values() {
    let mm = MemoryManager::new();
    let vals = FormatVals::Object(vec![("a".to_string(), num(1.0)), ("b".to_string(), Value::Null)]);
    assert_eq!(fmt(&mm, "%(b)s-%(a)03d", &vals).unwrap(), "null-001");
    assert_eq!(
        fmt(&mm, "%(c)s", &vals).unwrap_err(),
        "std.format: key 'c' not found in object"
    );
    assert_eq!(
        fmt(&mm, "%s", &vals).unwrap_err(),
        "std.format: positional index used with object values"
    );
}

#[test]
fn format_errors() {
    let mm = MemoryManager::new();
    let vals = FormatVals::Array(vec![Value::Null]);
    assert_eq!(fmt(&mm, "%d", &vals).unwrap_err(), "std.format: %d requires a number");
    assert_eq!(fmt(&mm, "%f", &vals).unwrap_err(), "std.format: %f requires a number");
    assert_eq!(fmt(&mm, "%q", &vals).unwrap_err(), "std.format: unknown format specifier '%q'");
    assert_eq!(
        fmt(&mm, "%s %s", &vals).unwrap_err(),
        "std.format: index 1 out of range (array has 1 elements)"
    );
    assert_eq!(fmt(&mm, "ab%", &vals).unwrap_err(), "std.format: trailing '%' in format string");
    assert_eq!(
        fmt(&mm, "%(x", &vals).unwrap_err(),
        "std.format: unclosed '(' in format specifier"
    );
    assert_eq!(fmt(&mm, "%5", &vals).unwrap_err(), "std.format: incomplete format specifier");
}

#[test]
fn format_exponent_is_handed_in() {
    let mm = MemoryManager::new();
    let vals = FormatVals::Single(num(1234.5));
    assert_eq!(fmt(&mm, "%.2e", &vals).unwrap(), "1.23e3");
}
