//! The icon shown before each category of a report.
use vstd::prelude::*;
use crate::order::{compare_str, KeyOrder};

verus! {

/// The icon of a category, by its exact key; the empty string for a
/// category that has none.
pub open spec fn icon_of(name: Seq<char>) -> Seq<char> {
    if name == "3dsmax"@ {
        "\u{1fad6}"@
    } else if name == "channel"@ {
        "\u{1f4c8}"@
    } else if name == "char"@ {
        "\u{1f3c2}"@
    } else if name == "character"@ {
        "\u{1f3c2}"@
    } else if name == "chop"@ {
        "\u{1f4c8}"@
    } else if name == "cop2"@ {
        "\u{1f3ab}"@
    } else if name == "crowd"@ {
        "\u{1f38e}"@
    } else if name == "doc"@ {
        "\u{1f4c4}"@
    } else if name == "dop"@ {
        "\u{1f30a}"@
    } else if name == "expr"@ {
        "\u{1f4e7}"@
    } else if name == "fbx"@ {
        "\u{1f381}"@
    } else if name == "fur"@ {
        "\u{1f98a}"@
    } else if name == "general"@ {
        "\u{1f365}"@
    } else if name == "geo"@ {
        "\u{1f371}"@
    } else if name == "gl"@ {
        "\u{2699}"@
    } else if name == "gltf"@ {
        ""@
    } else if name == "gplay"@ {
        ""@
    } else if name == "grave"@ {
        "\u{1f4cc}"@
    } else if name == "handle"@ {
        "\u{1f579}"@
    } else if name == "hapi"@ {
        "\u{1f529}"@
    } else if name == "hom"@ {
        "\u{1f40d}"@
    } else if name == "hdk"@ {
        "\u{1f9f0}"@
    } else if name == "hqueue"@ {
        "\u{1f39b}"@
    } else if name == "image"@ {
        "\u{1f303}"@
    } else if name == "jive"@ {
        "\u{1f4c8}"@
    } else if name == "karma"@ {
        "\u{1f341}"@
    } else if name == "launcher"@ {
        "\u{1f680}"@
    } else if name == "license"@ {
        "\u{1f511}"@
    } else if name == "linux"@ {
        "\u{1f427}"@
    } else if name == "lop"@ {
        "\u{1f4a1}"@
    } else if name == "mantra"@ {
        "\u{1f4fd}"@
    } else if name == "maya"@ {
        "\u{1f5ff}"@
    } else if name == "mplay"@ {
        "\u{1f4fc}"@
    } else if name == "op"@ {
        "\u{2699}"@
    } else if name == "opencl"@ {
        "\u{1f680}"@
    } else if name == "osx"@ {
        "\u{1f34f}"@
    } else if name == "otl"@ {
        "\u{1f4e6}"@
    } else if name == "pdg"@ {
        "\u{1f3a9}"@
    } else if name == "pop"@ {
        "\u{1f4a7}"@
    } else if name == "pyro"@ {
        "\u{1f525}"@
    } else if name == "python"@ {
        "\u{1f40d}"@
    } else if name == "render"@ {
        "\u{1f39e}"@
    } else if name == "rop"@ {
        "\u{1f39e}"@
    } else if name == "soho"@ {
        "\u{1f40d}"@
    } else if name == "solaris"@ {
        "\u{1f4a5}"@
    } else if name == "sop"@ {
        "\u{1f9e0}"@
    } else if name == "top"@ {
        "\u{1f3a9}"@
    } else if name == "ui"@ {
        "\u{1f39a}"@
    } else if name == "unity"@ {
        "\u{1f30f}"@
    } else if name == "unreal"@ {
        "\u{1f52e}"@
    } else if name == "vex"@ {
        "\u{1f393}"@
    } else if name == "vop"@ {
        "\u{1f393}"@
    } else if name == "windows"@ {
        "\u{1f4ce}"@
    } else {
        ""@
    }
}

fn same(a: &str, b: &str) -> (r: bool)
    ensures
        r <==> a@ == b@,
{
    compare_str(a, b) == KeyOrder::Equal
}

/// The icon of a category, by its exact key.
pub fn category_icon(name: &str) -> (r: &'static str)
    ensures
        r@ == icon_of(name@),
{
    if same(name, "3dsmax") {
        "\u{1fad6}"
    } else if same(name, "channel") {
        "\u{1f4c8}"
    } else if same(name, "char") {
        "\u{1f3c2}"
    } else if same(name, "character") {
        "\u{1f3c2}"
    } else if same(name, "chop") {
        "\u{1f4c8}"
    } else if same(name, "cop2") {
        "\u{1f3ab}"
    } else if same(name, "crowd") {
        "\u{1f38e}"
    } else if same(name, "doc") {
        "\u{1f4c4}"
    } else if same(name, "dop") {
        "\u{1f30a}"
    } else if same(name, "expr") {
        "\u{1f4e7}"
    } else if same(name, "fbx") {
        "\u{1f381}"
    } else if same(name, "fur") {
        "\u{1f98a}"
    } else if same(name, "general") {
        "\u{1f365}"
    } else if same(name, "geo") {
        "\u{1f371}"
    } else if same(name, "gl") {
        "\u{2699}"
    } else if same(name, "gltf") {
        ""
    } else if same(name, "gplay") {
        ""
    } else if same(name, "grave") {
        "\u{1f4cc}"
    } else if same(name, "handle") {
        "\u{1f579}"
    } else if same(name, "hapi") {
        "\u{1f529}"
    } else if same(name, "hom") {
        "\u{1f40d}"
    } else if same(name, "hdk") {
        "\u{1f9f0}"
    } else if same(name, "hqueue") {
        "\u{1f39b}"
    } else if same(name, "image") {
        "\u{1f303}"
    } else if same(name, "jive") {
        "\u{1f4c8}"
    } else if same(name, "karma") {
        "\u{1f341}"
    } else if same(name, "launcher") {
        "\u{1f680}"
    } else if same(name, "license") {
        "\u{1f511}"
    } else if same(name, "linux") {
        "\u{1f427}"
    } else if same(name, "lop") {
        "\u{1f4a1}"
    } else if same(name, "mantra") {
        "\u{1f4fd}"
    } else if same(name, "maya") {
        "\u{1f5ff}"
    } else if same(name, "mplay") {
        "\u{1f4fc}"
    } else if same(name, "op") {
        "\u{2699}"
    } else if same(name, "opencl") {
        "\u{1f680}"
    } else if same(name, "osx") {
        "\u{1f34f}"
    } else if same(name, "otl") {
        "\u{1f4e6}"
    } else if same(name, "pdg") {
        "\u{1f3a9}"
    } else if same(name, "pop") {
        "\u{1f4a7}"
    } else if same(name, "pyro") {
        "\u{1f525}"
    } else if same(name, "python") {
        "\u{1f40d}"
    } else if same(name, "render") {
        "\u{1f39e}"
    } else if same(name, "rop") {
        "\u{1f39e}"
    } else if same(name, "soho") {
        "\u{1f40d}"
    } else if same(name, "solaris") {
        "\u{1f4a5}"
    } else if same(name, "sop") {
        "\u{1f9e0}"
    } else if same(name, "top") {
        "\u{1f3a9}"
    } else if same(name, "ui") {
        "\u{1f39a}"
    } else if same(name, "unity") {
        "\u{1f30f}"
    } else if same(name, "unreal") {
        "\u{1f52e}"
    } else if same(name, "vex") {
        "\u{1f393}"
    } else if same(name, "vop") {
        "\u{1f393}"
    } else if same(name, "windows") {
        "\u{1f4ce}"
    } else {
        ""
    }
}

} // verus!
