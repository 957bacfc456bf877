[package]
name = "kube_cloudflare_dns"
version = "0.1.0"
edition = "2021"
publish = false
