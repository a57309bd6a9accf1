//! The integration suite: parsing, querying, searching and editing whole
//! documents.

use hson::Hson;
use hson::HsonError;
use hson::Ops;
use hson::Query;
use hson::Search;

const SMALL: &str = r##"{
  "div": {
    "attrs": { "class": ["active", 123, 0.25864, "test"] },
    "p": {
      "span": { "b": "x" },
      "attrs": { "id": "12", "rate": 0.4321, "trusted": true, "alt": "y" }
    }
  },
  "div": {
    "attrs": "none",
    "ul": { "li": "a" }
  },
  "div": {
    "p": "text"
  },
  "footer": { "a": 1, "b": 2 }
}"##;

const SIMPLE: &str = r##"{"div": {"attrs": {"id": "a", "class": "b"}, "text": "t"}}"##;

const NUM: &str = r##"{"evens": [0, 2, 4, 6, 8, 10, 12, 14, 16, 18, 20, 22, 24, 26, 28, 30, 32, 34, 36, 38, 40, 42], "odds": [1, 3, 5, 7, 9, 11, 13, 15, 17, 19, 21, 23, 25, 27, 29, 31, 33, 35, 37, 39, 41, 43]}"##;

const LONG: &str = r##"{
  "div": {},
  "div": {},
  "div": {},
  "div": {},
  "div": {},
  "div": {},
  "div": {},
  "li": {"attrs": {"class": "c0", "data": "d0"}, "text": "t0"},
  "li": {"attrs": {"class": "c1", "data": "d1"}, "text": "t1"},
  "li": {"attrs": {"class": "c2", "data": "d2"}, "text": "t2"},
  "li": {"attrs": {"class": "c3", "data": "d3"}, "text": "t3"},
  "li": {"attrs": {"class": "c4", "data": "d4"}, "text": "t4"},
  "li": {"attrs": {"class": "c5", "data": "d5"}, "text": "t5"},
  "li": {"attrs": {"class": "c6", "data": "d6"}, "text": "t6"},
  "li": {"attrs": {"class": "c7", "data": "d7"}, "text": "t7"},
  "li": {"attrs": {"class": "c8", "data": "d8"}, "text": "t8"},
  "li": {"attrs": {"class": "c9", "data": "d9"}, "text": "t9"},
  "li": {"attrs": {"class": "c10", "data": "d10"}, "text": "t10"},
  "li": {"attrs": {"class": "c11", "data": "d11"}, "text": "t11"},
  "li": {"attrs": {"class": "c12", "data": "d12"}, "text": "t12"},
  "li": {"attrs": {"class": "c13", "data": "d13"}, "text": "t13"},
  "li": {"attrs": {"class": "c14", "data": "d14"}, "text": "t14"},
  "li": {"attrs": {"class": "c15", "data": "d15"}, "text": "t15"},
  "li": {"attrs": {"class": "c16", "data": "d16"}, "text": "t16"},
  "p": {"attrs": {"id": "test-1"}},
  "p": {"attrs": {"id": "test-2"}},
  "pad": {"k0": 0, "k1": 1, "k2": 2, "k3": 3, "k4": 4, "k5": 5, "k6": 6, "k7": 7, "k8": 8, "k9": 9, "k10": 10, "k11": 11, "k12": 12, "k13": 13, "k14": 14, "k15": 15, "k16": 16, "k17": 17, "k18": 18, "k19": 19, "k20": 20, "k21": 21, "k22": 22, "k23": 23, "k24": 24, "k25": 25, "k26": 26, "k27": 27, "k28": 28, "k29": 29, "k30": 30, "k31": 31, "k32": 32, "k33": 33, "k34": 34, "k35": 35, "k36": 36, "k37": 37, "k38": 38, "k39": 39, "k40": 40, "k41": 41, "k42": 42, "k43": 43, "k44": 44, "k45": 45, "k46": 46, "k47": 47, "k48": 48, "k49": 49, "k50": 50, "k51": 51, "k52": 52, "k53": 53, "k54": 54, "k55": 55, "k56": 56, "k57": 57, "k58": 58, "k59": 59, "k60": 60, "k61": 61, "k62": 62, "k63": 63, "k64": 64, "k65": 65, "k66": 66, "k67": 67, "k68": 68, "k69": 69, "k70": 70, "k71": 71, "k72": 72, "k73": 73, "k74": 74, "k75": 75, "k76": 76, "k77": 77, "k78": 78, "k79": 79, "k80": 80, "k81": 81, "k82": 82, "k83": 83, "k84": 84, "k85": 85, "k86": 86, "k87": 87, "k88": 88, "k89": 89, "k90": 90, "k91": 91, "k92": 92, "k93": 93, "k94": 94, "k95": 95, "k96": 96, "k97": 97, "k98": 98, "k99": 99, "k100": 100, "k101": 101, "k102": 102, "k103": 103, "k104": 104, "k105": 105, "k106": 106, "k107": 107, "k108": 108, "k109": 109, "k110": 110, "k111": 111, "k112": 112, "k113": 113, "k114": 114, "k115": 115, "k116": 116, "k117": 117, "k118": 118, "k119": 119, "k120": 120, "k121": 121, "k122": 122, "k123": 123, "k124": 124, "k125": 125, "k126": 126, "k127": 127, "k128": 128, "k129": 129, "k130": 130, "k131": 131, "k132": 132, "k133": 133, "k134": 134, "k135": 135, "k136": 136, "k137": 137, "k138": 138, "k139": 139, "k140": 140, "k141": 141, "k142": 142, "k143": 143, "k144": 144, "k145": 145, "k146": 146, "k147": 147, "k148": 148, "k149": 149, "k150": 150, "k151": 151, "k152": 152, "k153": 153, "k154": 154, "k155": 155, "k156": 156, "k157": 157, "k158": 158, "k159": 159, "k160": 160, "k161": 161, "k162": 162, "k163": 163, "k164": 164, "k165": 165, "k166": 166, "k167": 167, "k168": 168, "k169": 169, "k170": 170, "k171": 171, "k172": 172, "k173": 173, "k174": 174, "k175": 175, "k176": 176, "k177": 177, "k178": 178, "k179": 179, "k180": 180, "k181": 181, "k182": 182, "k183": 183, "k184": 184, "k185": 185, "k186": 186, "k187": 187, "k188": 188, "k189": 189, "k190": 190, "k191": 191, "k192": 192, "k193": 193, "k194": 194}
}"##;

const NESTED: &str = r##"{"div": {"p": {"b": "1", "c": [{"b": "2"}]}}}"##;

const ARRAY: &str = r##"{"items": [{"id": "1", "v": 1}, {"id": "2", "v": 2}, {"id": "3", "v": 3}, {"id": "4", "v": 4}], "n": 5, "m": 6, "k": 7}"##;

const HTML: &str = r##"{"a": {"attrs": {"class": "link", "href": "https://x.example/path?q=1&r=2"}}, "b": {"attrs": {"class": "btn"}}, "c": {"attrs": {"class": "nav"}}}"##;

const INTRICATE: &str = r##"{"s": "he said \"hi, there\" twice", "arr": [[1, 2], [3, [4]]], "t": "a,b:c{d}[e]", "neg": -12, "f": -0.5, "e": 2e3, "u": {"deep": {"deeper": [true, false]}}}"##;

#[test]
fn can_parse() {
    let mut hson = Hson::new();
    assert_eq!(hson.parse(SMALL).unwrap(), ());
}

#[test]
fn can_parse_uri() {
    let mut hson = Hson::new();
    assert_eq!(hson.parse(HTML).unwrap(), ());
}

#[test]
fn can_parse_intricate() {
    let mut hson = Hson::new();
    assert_eq!(hson.parse(INTRICATE).unwrap(), ());
}

#[test]
#[should_panic]
fn cant_parse() {
    let data = r#"{
            "div": {
                "class": [],
                "text": "World
            },
            "ul": {
                "class": ["active","test"]
            }
        }"#;

    let mut hson = Hson::new();
    hson.parse(data).unwrap();
}

#[test]
fn parse_array() {
    let mut hson = Hson::new();
    assert_eq!(hson.parse(ARRAY).unwrap(), ());

    assert_eq!(hson.indexes.len(), 17);
}

#[test]
fn has_nodes_number_simple() {
    let mut hson = Hson::new();
    hson.parse(SIMPLE).unwrap();

    assert_eq!(hson.indexes.len(), 6);
}

#[test]
fn has_nodes_number_small() {
    let mut hson = Hson::new();
    hson.parse(SMALL).unwrap();

    assert_eq!(hson.indexes.len(), 25);
}

#[test]
fn has_nodes_number_num() {
    let mut hson = Hson::new();
    hson.parse(NUM).unwrap();

    assert_eq!(hson.indexes.len(), 47);
}

#[test]
fn has_nodes_number_long() {
    let mut hson = Hson::new();
    hson.parse(LONG).unwrap();

    assert_eq!(hson.indexes.len(), 295);
}

#[test]
#[should_panic]
fn invalid_chars() {
    let data = r#"{
            "div": {
                class: [],
                "text": "World
            },
            "ul": {
                "class": ["active","test"]
            }
        }"#;

    let mut hson = Hson::new();
    hson.parse(data).unwrap();
}

#[test]
fn query_retrieve_elements() {
    let mut hson = Hson::new();
    hson.parse(SMALL).unwrap();

    let results = hson.query("attrs").unwrap();
    assert_eq!(results.len(), 3);
}

#[test]
fn query_retrieve_in_node() {
    let mut hson = Hson::new();
    hson.parse(SMALL).unwrap();

    let results = hson.query("div p").unwrap();
    let childs_results = hson.query_on(results[0], "span", true).unwrap();

    assert_eq!(childs_results.len(), 1);
}

#[test]
fn query_retrieve_in_node_only() {
    let mut hson = Hson::new();
    hson.parse(SMALL).unwrap();

    let results = hson.query("div").unwrap();
    let childs_results = hson.query_on(results[0], "attrs", false).unwrap();

    assert_eq!(childs_results.len(), 1);
}

#[test]
fn search_on_small() {
    let mut hson = Hson::new();
    hson.parse(SMALL).unwrap();

    let results = hson.search("div").unwrap();
    assert_eq!(results.len(), 3);

    let results = hson.search("div > p attrs id | rate | trusted").unwrap();
    assert_eq!(results.len(), 3);

    let results = hson.search("div > p attrs id = '12' | rate = '3' | trusted").unwrap();
    assert_eq!(results.len(), 2);

    let results = hson.search("div > attrs").unwrap();
    assert_eq!(results.len(), 2);
}

#[test]
fn search_on_long() {
    let mut hson = Hson::new();
    hson.parse(LONG).unwrap();

    let results = hson.search("div").unwrap();
    assert_eq!(results.len(), 7);

    let results = hson.search("li>attrs").unwrap();
    assert_eq!(results.len(), 17);
}

#[test]
fn search_in_nested_array() {
    let mut hson = Hson::new();
    hson.parse(NESTED).unwrap();

    assert_eq!(hson.indexes.len(), 7);

    let results = hson.search("p b").unwrap();
    assert_eq!(results.len(), 2);

    let results = hson.search("div>b").unwrap();
    assert_eq!(results.len(), 0);
}

#[test]
fn search_in_node() {
    let mut hson = Hson::new();
    hson.parse(LONG).unwrap();

    let results = hson.search("p>attrs").unwrap();
    let ids = hson.search_in(results[1], "id").unwrap();

    assert_eq!(ids.len(), 1);

    let vertex = hson.get_vertex(ids[0]).unwrap();
    assert_eq!(vertex.value_as_string().unwrap(), "test-2");
}

#[test]
fn search_in_node_only() {
    let mut hson = Hson::new();
    hson.parse(SMALL).unwrap();

    let results = hson.search("div").unwrap();
    assert_eq!(results.len(), 3);

    let res = hson.search_in(results[0], ">attrs").unwrap();
    assert_eq!(res.len(), 1);
}

#[test]
fn search_in_array() {
    let mut hson = Hson::new();
    hson.parse(ARRAY).unwrap();

    let results = hson.search("id").unwrap();
    assert_eq!(results.len(), 4);
}

#[test]
fn insertion_long() {
    let mut hson = Hson::new();
    hson.parse(LONG).unwrap();

    assert_eq!(hson.indexes.len(), 295);

    let results = hson.search("li>attrs>id").unwrap();
    assert_eq!(results.len(), 0);

    let results = hson.search("li>attrs").unwrap();

    let child = r#"{
                        "class": ["active", "item"],
                        "id": "my-id",
                        "rel": {
                            "name": "test",
                            "id": "43526",
                            "pos": 2
                        }
                    }"#;

    assert_eq!(hson.insert(results[0], 1, child).unwrap(), ());
    assert_eq!(hson.indexes.len(), 303);
    assert_eq!(hson.nodes.keys().len(), 303);

    let results = hson.search("li>attrs>id").unwrap();
    assert_eq!(results.len(), 1);
}

#[test]
fn insertion_small() {
    let mut hson = Hson::new();
    hson.parse(SMALL).unwrap();

    assert_eq!(hson.indexes.len(), 25);

    let results = hson.query("div p attrs").unwrap();
    assert_eq!(results.len(), 1);

    let child = r#"{
                        "class": ["active", "item"],
                        "name": "foo"
                    }"#;

    assert_eq!(hson.insert(results[0], 0, child).unwrap(), ());
    assert_eq!(hson.indexes.len(), 29);
    assert_eq!(hson.nodes.keys().len(), 29);
}

#[test]
fn deletion() {
    let mut hson = Hson::new();
    hson.parse(SMALL).unwrap();

    assert_eq!(hson.indexes.len(), 25);

    let results = hson.query("p").unwrap();
    assert_eq!(results.len(), 2);

    assert_eq!(hson.remove(results[0]).unwrap(), ());
    assert_eq!(hson.indexes.len(), 17);
    assert_eq!(hson.nodes.keys().len(), 17);
}

#[test]
fn replacement() {
    let mut hson = Hson::new();
    hson.parse(HTML).unwrap();

    let results = hson.search("attrs class").unwrap();
    assert_eq!(results.len(), 3);

    let replace = r#"{
        "data": "test"
    }"#;
    hson.replace(results[0], replace).unwrap();

    let results = hson.search("attrs data").unwrap();
    assert_eq!(results.len(), 1);
}

#[test]
fn vertex() {
    let mut hson = Hson::new();
    hson.parse(SMALL).unwrap();

    let results = hson.query("div attrs class").unwrap();
    let class = hson.get_vertex(results[0]).unwrap();
    let values = class.value_as_array().unwrap();

    assert_eq!(values.len(), 4);
    assert_eq!(values[0], "active");
    assert_eq!(values[1], "123");
    assert_eq!(values[2], "0.25864");
    assert_eq!(values[3], "test");
}

#[test]
fn errors_are_reported() {
    let mut hson = Hson::new();
    hson.parse(SMALL).unwrap();

    assert_eq!(hson.remove(999_999), Err(HsonError::UnknownIdentifier(999_999)));
    assert_eq!(
        hson.insert(999_999, 0, "{\"a\": 1}"),
        Err(HsonError::UnknownIdentifier(999_999))
    );

    let attrs = hson.query("div p attrs").unwrap();
    assert_eq!(
        hson.insert(attrs[0], 9, "{\"a\": 1}"),
        Err(HsonError::BadPosition(9))
    );
    assert_eq!(
        hson.insert(attrs[0], 0, "{\"broken\": \"oops}"),
        Err(HsonError::FragmentError)
    );

    let mut fresh = Hson::new();
    assert_eq!(fresh.parse("[1, 2]"), Err(HsonError::MalformedInput(0)));
}
