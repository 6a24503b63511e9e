# grapple

Grapple mirrors GitHub repositories: it listens for GitHub webhooks, fetches
the repository a delivery names and pushes its branches and tags to the remote
configured for it.

- `src/` is the verified library. `webhook` authenticates deliveries against
  the configured mappings (the `X-Hub-Signature` HMAC-SHA1), `git_repository`
  decides how the local mirror is opened and which references are created,
  updated or deleted on the push remote (with the proof that carrying out the
  plan makes the push remote a mirror of the fetch remote), `server` holds the
  configuration loading order, and `config`, `errors` and `github` the data.
- `app/` is the Rocket web server and the git2 calls that carry the library's
  decisions out.
- `tests/` exercise the library on concrete inputs.

Configuration is read from `config.json`, else from `config.yaml`:

```
{
    "mappings": [
        {
            "from": "aelve/guide",
            "push_uri": "ssh://git@gitlab.example.com/aelve/guide.git",
            "deploy_public_key": "/var/lib/grapple/aelve_rsa.pub",
            "deploy_private_key": "/var/lib/grapple/aelve_rsa",
            "secret": "SECRET HERE"
        }
    ]
}
```
