# Builds the JPEG decoder without overflow checks: cargo --config extras/profile.toml
# On a damaged file its products can leave 32 bits, and are meant to wrap.

[profile.dev.package.zune-jpeg]
overflow-checks = false

[profile.release.package.zune-jpeg]
overflow-checks = false
