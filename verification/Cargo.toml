[package]
name = "rusty_css"
version = "0.1.0"
edition = "2021"
publish = false

[dependencies]
web-sys = { version = "0.3", features = ["Document", "Element", "EventTarget", "HtmlElement", "HtmlHeadElement", "Node"] }
