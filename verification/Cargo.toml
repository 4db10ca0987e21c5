[package]
name = "hiliter"
version = "0.1.0"
edition = "2021"
publish = false

[dependencies]
tree-sitter = "=0.27.0"
tree-sitter-python = "=0.25.0"
neovim-lib = "=0.6.1"
# Not used directly: pins the transitive rmp (via neovim-lib's rmpv 0.4,
# whose requirement is just "0.8") to the last release that still exports
# the read_data_* decode functions rmpv 0.4 imports; newer rmp patches
# removed them and break the build.
rmp = "=0.8.8"
