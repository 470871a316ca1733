use kokoro::later::{extend_add, CommonLater, ComponentItem, Host, HostType, LaterError, LaterFunc, Path};
use kokoro::manager::{init_all_laters, Later};

// The host grammar written with nom's combinators, to hold the library's parser against it.
use nom::{
    bytes::{complete::take_until, streaming::take_till},
    character::complete::one_of,
    sequence::tuple,
    IResult,
};

#[derive(Debug, PartialEq)]
enum RefTy {
    Planet,
    Satellite,
}

fn ref_parse_host_type(input: &str) -> IResult<&str, RefTy> {
    let (input, ty) = take_until(":")(input)?;
    let ty = match ty {
        "planet" => RefTy::Planet,
        "satellite" => RefTy::Satellite,
        _ => {
            return Err(nom::Err::Failure(nom::error::Error::new(
                input,
                nom::error::ErrorKind::Fail,
            )));
        }
    };
    Ok((input, ty))
}

fn ref_parse_name(input: &str) -> IResult<&str, String> {
    let (input, name) = take_till(|c| c == ':' || c == '/')(input)?;
    let (name, _) = one_of(":/")(name)?;
    Ok((input, name.to_string()))
}

fn ref_parse(input: &str) -> Option<(RefTy, String)> {
    tuple((ref_parse_host_type, ref_parse_name))(input).ok().map(|(_, r)| r)
}

fn s(x: &str) -> String {
    x.to_string()
}

fn paths(ls: &[CommonLater]) -> Vec<Vec<String>> {
    ls.iter()
        .map(|l| match l {
            CommonLater::Func(f) => f.path.to_vec(),
        })
        .collect()
}

#[test]
fn host_parse_agrees_with_nom_reference() {
    let inputs = [
        "", "planet", "planet:", "planet:demo", "planet:demo:", "planet:demo/", "planet::",
        "planet:/x", "satellite:worker:", "satellite:worker/rest", "moon:x:", ":", "::", "/",
        "planet/demo:", "a:b:c", "planet:dem:o/", "satellite::/",
    ];
    for input in inputs {
        let reference = ref_parse(input);
        let ours = Host::from_str(input);
        assert!(reference.is_none(), "nom accepted {:?}", input);
        match ours {
            Err(LaterError::HostParse(m)) => assert_eq!(m, input),
            other => panic!("unexpected result for {:?}: {:?}", input, other),
        }
    }
}

#[test]
fn host_parse_error_message() {
    let e = Host::from_str("planet:demo:").unwrap_err();
    assert_eq!(e.message(), "Can not parse 'planet:demo:' into Host");
}

#[test]
fn host_new_and_getters() {
    let h = Host::new(HostType::Satellite, s("worker"));
    assert_eq!(*h.ty(), HostType::Satellite);
    assert_eq!(h.name(), "worker");
}

#[test]
fn error_messages() {
    assert_eq!(LaterError::MissingInstanceName.message(), "Requires instance name");
    assert_eq!(LaterError::InstanceNotFound(s("a")).message(), "Instance:a does not exist.");
    assert_eq!(LaterError::ItemNotFound(s("b")).message(), "Item:b does not exist.");
    assert_eq!(LaterError::AlreadyExists(s("c")).message(), "Item:c already exist.");
}

#[test]
fn extend_add_cases() {
    assert_eq!(extend_add(None, 3), vec![3]);
    assert_eq!(extend_add(Some(vec![1, 2]), 3), vec![1, 2, 3]);
    assert_eq!(extend_add(Some(Vec::new()), s("x")), vec![s("x")]);
}

#[test]
fn path_conversions() {
    let p = Path::new();
    assert!(p.is_empty());
    let p: Path = vec![s("a"), s("b")].into();
    assert_eq!(*p, vec![s("a"), s("b")]);
    assert_eq!(p.take(), vec![s("a"), s("b")]);
}

#[test]
fn component_walk_collects_function_paths() {
    let items = vec![
        (s("wasi:cli/environment"), ComponentItem::ComponentInstance(vec![(s("get"), ComponentItem::ComponentFunc)])),
        (
            s("planet:demo/api"),
            ComponentItem::ComponentInstance(vec![
                (s("greet"), ComponentItem::ComponentFunc),
                (s("types"), ComponentItem::Other),
                (s("inner"), ComponentItem::Component(vec![(s("run"), ComponentItem::CoreFunc)])),
            ]),
        ),
        (s("top"), ComponentItem::ComponentFunc),
        (s("wasi:"), ComponentItem::ComponentFunc),
        (s("wasi"), ComponentItem::CoreFunc),
    ];
    let ls = CommonLater::from_component_types(None, &items);
    assert_eq!(
        paths(&ls),
        vec![
            vec![s("planet:demo/api"), s("greet")],
            vec![s("planet:demo/api"), s("inner"), s("run")],
            vec![s("top")],
            vec![s("wasi")],
        ]
    );
    let ls = CommonLater::from_component_types(Some(Path::from(vec![s("root")])), &items[2..3].iter().map(|(n, _)| (n.clone(), ComponentItem::CoreFunc)).collect());
    assert_eq!(paths(&ls), vec![vec![s("root"), s("top")]]);
}

#[test]
fn component_walk_of_nothing() {
    assert!(CommonLater::from_component_types(None, &Vec::new()).is_empty());
}

#[test]
fn resolve_errors() {
    let f = LaterFunc::new(Path::new());
    assert!(matches!(f.resolve(), Err(LaterError::MissingInstanceName)));
    let f = LaterFunc::new(Path::from(vec![s("planet:demo:"), s("greet")]));
    match f.resolve() {
        Err(LaterError::HostParse(m)) => assert_eq!(m, "planet:demo:"),
        other => panic!("{:?}", other),
    }
}

struct Counting {
    tried: usize,
}

struct Fallible(bool);

impl Later<Counting> for Fallible {
    fn init(self, manager: &mut Counting) -> Result<(), LaterError> {
        manager.tried += 1;
        if self.0 {
            Ok(())
        } else {
            Err(LaterError::ItemNotFound(s("x")))
        }
    }
}

#[test]
fn init_all_laters_pops_until_failure() {
    let mut m = Counting { tried: 0 };
    let mut ls = vec![Fallible(true), Fallible(false), Fallible(true), Fallible(true)];
    assert!(init_all_laters(&mut ls, &mut m).is_err());
    assert_eq!(m.tried, 3);
    assert_eq!(ls.len(), 1);
    let mut ls = vec![Fallible(true), Fallible(true)];
    assert!(init_all_laters(&mut ls, &mut m).is_ok());
    assert!(ls.is_empty());
    let mut empty: Vec<Fallible> = Vec::new();
    assert!(init_all_laters(&mut empty, &mut m).is_ok());
}

#[test]
fn common_laters_fail_at_the_first() {
    let mut m = ();
    let mut ls = vec![
        CommonLater::Func(LaterFunc::new(Path::from(vec![s("planet:a:"), s("f")]))),
        CommonLater::Func(LaterFunc::new(Path::from(vec![s("planet:b:"), s("g")]))),
    ];
    match init_all_laters(&mut ls, &mut m) {
        Err(LaterError::HostParse(h)) => assert_eq!(h, "planet:b:"),
        other => panic!("{:?}", other.is_ok()),
    }
    assert_eq!(ls.len(), 1);
    let mut empty: Vec<CommonLater> = Vec::new();
    assert!(init_all_laters(&mut empty, &mut m).is_ok());
    let mut one = vec![CommonLater::Func(LaterFunc::new(Path::new()))];
    assert!(matches!(init_all_laters(&mut one, &mut m), Err(LaterError::MissingInstanceName)));
    assert!(one.is_empty());
}

#[test]
fn leading_path_only_prefixes_what_is_found() {
    let items = vec![
        (s("planet:demo/api"), ComponentItem::ComponentInstance(vec![
            (s("greet"), ComponentItem::ComponentFunc),
            (s("inner"), ComponentItem::Component(vec![(s("run"), ComponentItem::CoreFunc)])),
        ])),
        (s("wasi:io"), ComponentItem::CoreFunc),
        (s("top"), ComponentItem::ComponentFunc),
    ];
    let bare = paths(&CommonLater::from_component_types(None, &items));
    let lead = vec![s("root"), s("sub")];
    let led = paths(&CommonLater::from_component_types(Some(Path::from(lead.clone())), &items));
    let expected: Vec<Vec<String>> = bare.iter().map(|p| lead.iter().cloned().chain(p.iter().cloned()).collect()).collect();
    assert_eq!(led, expected);
    assert_eq!(led.len(), 3);
    let empty = paths(&CommonLater::from_component_types(Some(Path::from(Vec::new())), &items));
    assert_eq!(empty, bare);
}
