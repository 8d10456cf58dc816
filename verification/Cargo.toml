[package]
name = "moc"
version = "0.1.0"
edition = "2021"
publish = false

[dependencies]
cdshealpix = "0.5"
